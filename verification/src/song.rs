//! The Twelve Days of Christmas: an iterator-style generator that hands out
//! one verse per call, a wrapper that repeats each verse, and helpers that
//! join and number the verses.

use vstd::prelude::*;

use vstd::string::StringExecFns;

verus! {

/// The ordinal for a day of the song.
pub open spec fn spec_ordinal(day: int) -> Seq<char>
    recommends
        1 <= day <= 12,
{
    if day == 1 {
        "first"@
    } else if day == 2 {
        "second"@
    } else if day == 3 {
        "third"@
    } else if day == 4 {
        "fourth"@
    } else if day == 5 {
        "fifth"@
    } else if day == 6 {
        "sixth"@
    } else if day == 7 {
        "seventh"@
    } else if day == 8 {
        "eighth"@
    } else if day == 9 {
        "ninth"@
    } else if day == 10 {
        "tenth"@
    } else if day == 11 {
        "eleventh"@
    } else {
        "twelfth"@
    }
}

/// The gift line sung for day `i` inside a verse; day one appears as the
/// closing "And a partridge" line.
pub open spec fn line_text(i: int) -> Seq<char>
    recommends
        1 <= i <= 12,
{
    if i == 1 {
        "And a partridge in a pear tree."@
    } else if i == 2 {
        "Two turtle doves,"@
    } else if i == 3 {
        "Three French hens,"@
    } else if i == 4 {
        "Four calling birds,"@
    } else if i == 5 {
        "Five golden rings,"@
    } else if i == 6 {
        "Six geese a-laying,"@
    } else if i == 7 {
        "Seven swans a-swimming,"@
    } else if i == 8 {
        "Eight maids a-milking,"@
    } else if i == 9 {
        "Nine ladies dancing,"@
    } else if i == 10 {
        "Ten lords a-leaping,"@
    } else if i == 11 {
        "Eleven pipers piping,"@
    } else {
        "Twelve drummers drumming,"@
    }
}

/// The gift lines for days `hi` down to `lo`, each on its own line.
pub open spec fn lines_down(hi: int, lo: int) -> Seq<char>
    decreases hi - lo + 1,
{
    if hi < lo {
        Seq::empty()
    } else {
        "\n"@ + line_text(hi) + lines_down(hi - 1, lo)
    }
}

/// Peeling the lowest line off the back instead of the highest off the
/// front.
proof fn lemma_lines_down_snoc(hi: int, lo: int)
    requires
        lo <= hi,
    ensures
        lines_down(hi, lo) == lines_down(hi, lo + 1) + ("\n"@ + line_text(lo)),
    decreases hi - lo + 1,
{
    if hi == lo {
        assert(lines_down(hi - 1, lo) =~= Seq::<char>::empty());
        assert(lines_down(hi, lo + 1) =~= Seq::<char>::empty());
        assert(lines_down(hi, lo) =~= lines_down(hi, lo + 1) + ("\n"@ + line_text(lo)));
    } else {
        lemma_lines_down_snoc(hi - 1, lo);
        assert(("\n"@ + line_text(hi) + (lines_down(hi - 1, lo + 1) + ("\n"@ + line_text(lo))))
            =~= ("\n"@ + line_text(hi) + lines_down(hi - 1, lo + 1)) + ("\n"@ + line_text(lo)));
    }
}

/// The whole verse for one day: the header line, then the gifts from the
/// day's own gift down to the partridge.
pub open spec fn spec_verse(day: int) -> Seq<char>
    recommends
        1 <= day <= 12,
{
    let head = "On the "@ + spec_ordinal(day) + " day of Christmas, my true love gave to me:"@;
    if day == 1 {
        head + "\n"@ + "A partridge in a pear tree."@
    } else {
        head + lines_down(day, 1)
    }
}

/// The ordinal for a day, as text.
fn ordinal(day: usize) -> (r: &'static str)
    requires
        1 <= day <= 12,
    ensures
        r@ == spec_ordinal(day as int),
{
    match day {
        1 => "first",
        2 => "second",
        3 => "third",
        4 => "fourth",
        5 => "fifth",
        6 => "sixth",
        7 => "seventh",
        8 => "eighth",
        9 => "ninth",
        10 => "tenth",
        11 => "eleventh",
        _ => "twelfth",
    }
}

/// The gift line for day `i`, as text.
fn line_str(i: usize) -> (r: &'static str)
    requires
        1 <= i <= 12,
    ensures
        r@ == line_text(i as int),
{
    match i {
        1 => "And a partridge in a pear tree.",
        2 => "Two turtle doves,",
        3 => "Three French hens,",
        4 => "Four calling birds,",
        5 => "Five golden rings,",
        6 => "Six geese a-laying,",
        7 => "Seven swans a-swimming,",
        8 => "Eight maids a-milking,",
        9 => "Nine ladies dancing,",
        10 => "Ten lords a-leaping,",
        11 => "Eleven pipers piping,",
        _ => "Twelve drummers drumming,",
    }
}

/// Builds the verse for one day.
fn build_verse(day: usize) -> (r: String)
    requires
        1 <= day <= 12,
    ensures
        r@ == spec_verse(day as int),
{
    let mut verse = String::from_str("On the ");
    verse.append(ordinal(day));
    verse.append(" day of Christmas, my true love gave to me:");
    let ghost head = "On the "@ + spec_ordinal(day as int)
        + " day of Christmas, my true love gave to me:"@;
    proof {
        assert(verse@ =~= head);
    }
    if day == 1 {
        verse.append("\n");
        verse.append("A partridge in a pear tree.");
        proof {
            assert(verse@ =~= head + "\n"@ + "A partridge in a pear tree."@);
        }
    } else {
        let mut i: usize = day;
        proof {
            assert(lines_down(day as int, day as int + 1) =~= Seq::<char>::empty());
            assert(verse@ =~= head + lines_down(day as int, day as int + 1));
        }
        while i >= 1
            invariant
                0 <= i <= day,
                1 <= day <= 12,
                head == "On the "@ + spec_ordinal(day as int)
                    + " day of Christmas, my true love gave to me:"@,
                verse@ == head + lines_down(day as int, i as int + 1),
            decreases i,
        {
            verse.append("\n");
            verse.append(line_str(i));
            proof {
                lemma_lines_down_snoc(day as int, i as int);
                assert(verse@ =~= head + lines_down(day as int, i as int));
            }
            i = i - 1;
        }
        proof {
            assert(verse@ == head + lines_down(day as int, 1));
        }
    }
    verse
}

/// Hands out the song's verses one at a time, day one first.
pub struct SongIter {
    current_day: usize,
    max_days: usize,
}

impl SongIter {
    /// Days already handed out.
    pub closed spec fn day(&self) -> usize {
        self.current_day
    }

    /// The number of days this iterator stops after.
    pub closed spec fn max(&self) -> usize {
        self.max_days
    }

    /// An iterator over the first `max_days` verses.
    pub fn new(max_days: usize) -> (r: Self)
        ensures
            r.day() == 0,
            r.max() == max_days,
    {
        SongIter { current_day: 0, max_days }
    }

    /// The next verse, or nothing once `max_days` verses are out.
    pub fn next(&mut self) -> (r: Option<String>)
        requires
            old(self).day() < 12 || old(self).day() >= old(self).max(),
        ensures
            old(self).day() >= old(self).max() ==> r is None && final(self).day() == old(
                self,
            ).day() && final(self).max() == old(self).max(),
            old(self).day() < old(self).max() ==> r is Some && r->0@ == spec_verse(
                old(self).day() + 1,
            ) && final(self).day() == old(self).day() + 1 && final(self).max() == old(self).max(),
    {
        if self.current_day >= self.max_days {
            return None;
        }
        let day = self.current_day + 1;
        self.current_day = day;
        Some(build_verse(day))
    }
}

/// The verses for days `start + 1 ..= cur`, joined by blank lines.
pub open spec fn joined_verses(start: int, cur: int) -> Seq<char>
    decreases cur - start,
{
    if cur <= start {
        Seq::empty()
    } else if cur == start + 1 {
        spec_verse(cur)
    } else {
        joined_verses(start, cur - 1) + "\n\n"@ + spec_verse(cur)
    }
}

/// Concatenates the verses the iterator has left, separated by blank lines.
pub fn song_to_string(iter: SongIter) -> (r: String)
    requires
        iter.max() <= 12,
    ensures
        r@ == joined_verses(iter.day() as int, iter.max() as int),
{
    let mut it = iter;
    let start_day = it.current_day;
    let ghost start = iter.day() as int;
    let mut out = String::new();
    proof {
        assert(out@ =~= joined_verses(start, start));
    }
    while it.current_day < it.max_days
        invariant
            it.max() <= 12,
            start <= it.day() as int <= it.max() as int || (start == it.day() as int && it.day()
                >= it.max()),
            it.max() == iter.max(),
            start == iter.day() as int,
            start == start_day as int,
            out@ == joined_verses(start, it.day() as int),
        decreases it.max() as int - it.day() as int,
    {
        let before_day = it.current_day;
        let ghost before = it.day() as int;
        let v = match it.next() {
            Some(v) => v,
            None => {
                // next() always yields a verse while days remain
                proof {
                    assert(false);
                }
                return out;
            },
        };
        if before_day != start_day {
            out.append("\n\n");
        }
        out.append(v.as_str());
        proof {
            if before == start {
                assert(out@ =~= joined_verses(start, before + 1));
            } else {
                assert(out@ =~= joined_verses(start, before) + "\n\n"@ + spec_verse(before + 1));
            }
        }
    }
    out
}

/// The two-digit label put in front of verse `i`.
pub open spec fn verse_label(i: int) -> Seq<char>
    recommends
        1 <= i <= 12,
{
    if i == 1 {
        "01: "@
    } else if i == 2 {
        "02: "@
    } else if i == 3 {
        "03: "@
    } else if i == 4 {
        "04: "@
    } else if i == 5 {
        "05: "@
    } else if i == 6 {
        "06: "@
    } else if i == 7 {
        "07: "@
    } else if i == 8 {
        "08: "@
    } else if i == 9 {
        "09: "@
    } else if i == 10 {
        "10: "@
    } else if i == 11 {
        "11: "@
    } else {
        "12: "@
    }
}

/// All twelve verses, each prefixed with its two-digit number.
pub fn numbered_song_iter() -> (r: Vec<String>)
    ensures
        r@.len() == 12,
        forall|i: int| 0 <= i < 12 ==> r@[i]@ == verse_label(i + 1) + spec_verse(i + 1),
{
    let mut out: Vec<String> = Vec::new();
    let mut day: usize = 1;
    while day <= 12
        invariant
            1 <= day <= 13,
            out@.len() == day - 1,
            forall|i: int| 0 <= i < day - 1 ==> out@[i]@ == verse_label(i + 1) + spec_verse(i + 1),
        decreases 13 - day,
    {
        let mut line = match day {
            1 => String::from_str("01: "),
            2 => String::from_str("02: "),
            3 => String::from_str("03: "),
            4 => String::from_str("04: "),
            5 => String::from_str("05: "),
            6 => String::from_str("06: "),
            7 => String::from_str("07: "),
            8 => String::from_str("08: "),
            9 => String::from_str("09: "),
            10 => String::from_str("10: "),
            11 => String::from_str("11: "),
            _ => String::from_str("12: "),
        };
        let v = build_verse(day);
        line.append(v.as_str());
        out.push(line);
        day = day + 1;
    }
    out
}

/// Wraps the song iterator and hands each verse out `n` times in a row.
pub struct DuplicatingIter {
    inner: SongIter,
    n: usize,
    current_item: Option<String>,
    current_count: usize,
}

impl DuplicatingIter {
    /// The wrapped iterator.
    pub closed spec fn inner_iter(&self) -> SongIter {
        self.inner
    }

    /// How often each verse is handed out.
    pub closed spec fn limit(&self) -> usize {
        self.n
    }

    /// The verse currently being repeated, if any.
    pub closed spec fn item(&self) -> Option<String> {
        self.current_item
    }

    /// How often the current verse has been handed out.
    pub closed spec fn count(&self) -> usize {
        self.current_count
    }

    /// Repeats each verse of `iter` `n` times.
    pub fn new(iter: SongIter, n: usize) -> (r: Self)
        ensures
            r.inner_iter() == iter,
            r.limit() == n,
            r.item() is None,
            r.count() == 0,
    {
        DuplicatingIter { inner: iter, n, current_item: None, current_count: 0 }
    }

    /// The next verse: the current one again while its count allows,
    /// otherwise the wrapped iterator's next verse, fresh with count one.
    pub fn next(&mut self) -> (r: Option<String>)
        requires
            old(self).inner_iter().day() < 12 || old(self).inner_iter().day()
                >= old(self).inner_iter().max(),
        ensures
            ({
                let repeating = old(self).item() is Some && old(self).count() < old(self).limit();
                let exhausted = old(self).inner_iter().day() >= old(self).inner_iter().max();
                &&& (repeating ==> r == old(self).item() && final(self).count()
                    == old(self).count() + 1 && final(self).item() == old(self).item()
                    && final(self).inner_iter() == old(self).inner_iter() && final(self).limit()
                    == old(self).limit())
                &&& (!repeating && !exhausted ==> r is Some && r->0@
                    == spec_verse(old(self).inner_iter().day() + 1) && final(self).item() == r
                    && final(self).count() == 1 && final(self).inner_iter().day()
                    == old(self).inner_iter().day() + 1)
                &&& (!repeating && exhausted ==> r is None && final(self).item()
                    == old(self).item() && final(self).count() == old(self).count())
            }),
    {
        if self.current_count < self.n {
            if let Some(item) = &self.current_item {
                let out = item.clone();
                self.current_count = self.current_count + 1;
                return Some(out);
            }
        }
        match self.inner.next() {
            Some(item) => {
                let out = item.clone();
                self.current_item = Some(item);
                self.current_count = 1;
                Some(out)
            },
            None => None,
        }
    }
}

/// Repeats each verse of `iter` `n` times.
pub fn duplicate(iter: SongIter, n: usize) -> (r: DuplicatingIter)
    ensures
        r.inner_iter() == iter,
        r.limit() == n,
        r.item() is None,
        r.count() == 0,
{
    DuplicatingIter::new(iter, n)
}

} // verus!
