use aoc2016::day04::{generate, solve, solve2, Room};

#[test]
fn test_room_checksum() {
    assert_eq!(
        &Room::parse("aaaaa-bbb-z-y-x-123[abxyz]").unwrap().checksum(),
        "abxyz"
    )
}

#[test]
fn test_room_decrypt() {
    assert_eq!(
        &Room::parse("qzmt-zixmtkozy-ivhz-343[aaaaa]").unwrap().decrypt(),
        "very encrypted name"
    )
}

#[test]
fn room_fields_and_legality() {
    let room = Room::parse("not-a-real-room-404[oarel]").unwrap();
    assert_eq!(room.name, "not-a-real-room");
    assert_eq!(room.sector, 404);
    assert_eq!(room.checksum, "oarel");
    assert!(room.legal());
    assert!(!Room::parse("totally-real-room-200[decoy]").unwrap().legal());
    assert_eq!(Room::parse("a-b-c-d-e-f-g-h-987[abcde]").unwrap().checksum(), "abcde");
    assert_eq!(Room::parse("ab-ba-7[abxyz]").unwrap().checksum(), "ab");
    assert_eq!(Room::parse("noroom"), None);
    assert_eq!(Room::parse("a-12[ab]"), None);
}

#[test]
fn day04_sums() {
    let rooms = generate(
        "aaaaa-bbb-z-y-x-123[abxyz]\na-b-c-d-e-f-g-h-987[abcde]\nnot-a-real-room-404[oarel]\ntotally-real-room-200[decoy]\n",
    );
    assert_eq!(solve(&rooms), 1514);
    assert_eq!(solve2(&rooms), 0);
    // "northpole object storage" shifted back by 1 letter, with a matching checksum
    let plain = "northpole-object-storage";
    let enc: String = plain
        .chars()
        .map(|c| if c == '-' { '-' } else { (((c as u8 - b'a' + 25) % 26) + b'a') as char })
        .collect();
    let probe = Room::parse(&format!("{}-1[aaaaa]", enc)).unwrap();
    let line = format!("{}-1[{}]", enc, probe.checksum());
    assert_eq!(solve2(&generate(&line)), 1);
}
