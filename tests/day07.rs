use aoc2016::day07::{has_abba, has_ssl, has_tls, net_aba, solve, solve2};

#[test]
fn test_has_tls() {
    assert!(has_tls("abba[mnop]qrst"));
    assert!(!has_tls("abcd[bddb]xyyx"));
    assert!(!has_tls("aaaa[qwer]tyui"));
    assert!(has_tls("ioxxoj[asdfgh]zxcvbn"));
    assert!(!has_tls("abba[mnop]qrst[abba]foos"));
}

#[test]
fn test_has_ssl() {
    assert!(has_ssl("aba[bab]xyz"));
    assert!(!has_ssl("xyx[xyx]xyx"));
    assert!(has_ssl("aaa[kek]eke"));
    assert!(has_ssl("zazbz[bzb]cdb"));
}

#[test]
fn abba_and_aba_helpers() {
    assert!(has_abba("xabba"));
    assert!(!has_abba("aaaa"));
    assert!(!has_abba("ab"));
    assert_eq!(net_aba("zazbz"), vec!["aza".to_string(), "bzb".to_string()]);
    assert!(net_aba("ab").is_empty());
}

#[test]
fn day07_counts() {
    let input = "abba[mnop]qrst\nabcd[bddb]xyyx\nioxxoj[asdfgh]zxcvbn\n";
    assert_eq!(solve(input), 2);
    let input2 = "aba[bab]xyz\nxyx[xyx]xyx\naaa[kek]eke\nzazbz[bzb]cdb";
    assert_eq!(solve2(input2), 3);
}
