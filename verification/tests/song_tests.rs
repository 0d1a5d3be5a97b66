use bignum::song::duplicate;
use bignum::song::numbered_song_iter;
use bignum::song::song_to_string;
use bignum::song::SongIter;

#[test]
fn test_song_iterator() {
    let mut iter = SongIter::new(3); // Just the first 3 days for brevity

    // First day
    let day1 = iter.next().unwrap();
    assert!(day1.contains("first day of Christmas"));
    assert!(day1.contains("A partridge in a pear tree"));

    // Second day
    let day2 = iter.next().unwrap();
    assert!(day2.contains("second day of Christmas"));
    assert!(day2.contains("Two turtle doves"));
    assert!(day2.contains("And a partridge in a pear tree"));

    // Third day
    let day3 = iter.next().unwrap();
    assert!(day3.contains("third day of Christmas"));
    assert!(day3.contains("Three French hens"));
    assert!(day3.contains("Two turtle doves"));
    assert!(day3.contains("And a partridge in a pear tree"));

    // Should be None after we've gone through all days
    assert_eq!(iter.next(), None);
}

#[test]
fn test_duplicate_iterator() {
    let iter = SongIter::new(1); // Just first day
    let mut dup_iter = duplicate(iter, 2); // Duplicate each line twice

    let first = dup_iter.next().unwrap();
    let second = dup_iter.next().unwrap();

    assert_eq!(first, second); // Both should be identical
    assert_eq!(dup_iter.next(), None); // No more items
}

#[test]
fn test_song_to_string() {
    let iter = SongIter::new(2); // First two days
    let song_string = song_to_string(iter);

    assert!(song_string.contains("first day of Christmas"));
    assert!(song_string.contains("second day of Christmas"));
    assert!(song_string.contains("Two turtle doves"));
}

#[test]
fn test_first_verse_text() {
    let mut iter = SongIter::new(12);
    let day1 = iter.next().unwrap();
    assert_eq!(
        day1,
        "On the first day of Christmas, my true love gave to me:\nA partridge in a pear tree."
    );
}

#[test]
fn test_second_verse_text() {
    let mut iter = SongIter::new(12);
    iter.next().unwrap();
    let day2 = iter.next().unwrap();
    assert_eq!(
        day2,
        "On the second day of Christmas, my true love gave to me:\nTwo turtle doves,\nAnd a partridge in a pear tree."
    );
}

#[test]
fn test_numbered_song() {
    let lines = numbered_song_iter();
    assert_eq!(lines.len(), 12);
    assert!(lines[0].starts_with("01: On the first day"));
    assert!(lines[11].starts_with("12: On the twelfth day"));
}

#[test]
fn test_song_to_string_separator() {
    let s = song_to_string(SongIter::new(2));
    let parts: Vec<&str> = s.split("\n\n").collect();
    assert_eq!(parts.len(), 2);
    assert!(parts[0].starts_with("On the first day"));
    assert!(parts[1].starts_with("On the second day"));
}

#[test]
fn test_duplicate_three_times() {
    let mut d = duplicate(SongIter::new(2), 3);
    let mut collected = Vec::new();
    while let Some(v) = d.next() {
        collected.push(v);
    }
    assert_eq!(collected.len(), 6);
    assert_eq!(collected[0], collected[2]);
    assert_ne!(collected[2], collected[3]);
    assert_eq!(collected[3], collected[5]);
}
