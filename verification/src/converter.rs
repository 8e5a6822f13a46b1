//! The conversion service behind `1` and `4` requests: a five-word table
//! mapping Japanese day words to an offset in days from today, and the two
//! date spellings offered as candidates for that day.
//!
//! The calendar date itself comes from the system clock and the local time
//! zone, so it is read through one trusted wrapper; everything done with the
//! date — the table, the formatting, the candidate list — is verified on
//! plain year, month and day values.

use vstd::prelude::*;
use vstd::utf8::valid_utf8;
use vstd::utf8::decode_utf8;
use vstd::utf8::encode_utf8;
use vstd::utf8::encode_utf8_decode_utf8;
use vstd::utf8::partial_valid_utf8;
use vstd::utf8::partial_valid_utf8_extend_ascii_block;
use vstd::pervasive::unreached;

use crate::codec::string_from_bytes;

verus! {

/// True of two strings exactly when they spell the same characters.
fn str_eq(a: &str, b: &str) -> (r: bool)
    ensures
        r <==> a@ == b@,
{
    let ab = a.as_bytes();
    let bb = b.as_bytes();
    let n = ab.len();
    proof {
        encode_utf8_decode_utf8(a@);
        encode_utf8_decode_utf8(b@);
    }
    if n != bb.len() {
        return false;
    }
    let mut k: usize = 0;
    while k < n
        invariant
            k <= n,
            n == ab@.len(),
            n == bb@.len(),
            ab@ == encode_utf8(a@),
            bb@ == encode_utf8(b@),
            forall|j: int| 0 <= j < k ==> ab@[j] == bb@[j],
        decreases n - k,
    {
        if ab[k] != bb[k] {
            return false;
        }
        k += 1;
    }
    proof {
        assert(ab@ =~= bb@);
    }
    true
}

/// The day offset a request word asks for: two days back for おととい up to
/// two days forward for あさって, and nothing for any other word.
pub open spec fn offset_spec(s: Seq<char>) -> Option<int> {
    if s == "おととい"@ {
        Option::Some(-2)
    } else if s == "きのう"@ {
        Option::Some(-1)
    } else if s == "きょう"@ {
        Option::Some(0)
    } else if s == "あした"@ || s == "あす"@ {
        Option::Some(1)
    } else if s == "あさって"@ {
        Option::Some(2)
    } else {
        Option::None
    }
}

fn lookup_offset(input: &str) -> (r: Option<i64>)
    ensures
        (match r {
            Option::Some(v) => offset_spec(input@) == Option::<int>::Some(v as int),
            Option::None => offset_spec(input@) is None,
        }),
{
    if str_eq(input, "おととい") {
        Option::Some(-2)
    } else if str_eq(input, "きのう") {
        Option::Some(-1)
    } else if str_eq(input, "きょう") {
        Option::Some(0)
    } else if str_eq(input, "あした") {
        Option::Some(1)
    } else if str_eq(input, "あす") {
        Option::Some(1)
    } else if str_eq(input, "あさって") {
        Option::Some(2)
    } else {
        Option::None
    }
}

/// The ASCII digit for one decimal place.
pub open spec fn digit_byte(n: int) -> u8 {
    (48 + n) as u8
}

/// A number of at most two places, zero-padded to exactly two digits.
pub open spec fn two_digit_bytes(n: int) -> Seq<u8> {
    seq![digit_byte(n / 10), digit_byte(n % 10)]
}

/// A number of at most four places, zero-padded to exactly four digits.
pub open spec fn four_digit_bytes(n: int) -> Seq<u8> {
    seq![
        digit_byte(n / 1000),
        digit_byte((n / 100) % 10),
        digit_byte((n / 10) % 10),
        digit_byte(n % 10),
    ]
}

/// A calendar date spelled with the given separator: four year digits and
/// two digits each for month and day, with a leading `-` for years before
/// year zero.
pub open spec fn date_bytes(y: int, m: int, d: int, sep: u8) -> Seq<u8> {
    if y >= 0 {
        four_digit_bytes(y) + seq![sep] + two_digit_bytes(m) + seq![sep] + two_digit_bytes(d)
    } else {
        seq![45u8] + four_digit_bytes(-y) + seq![sep] + two_digit_bytes(m) + seq![sep]
            + two_digit_bytes(d)
    }
}

proof fn lemma_ascii_valid_utf8(s: Seq<u8>)
    requires
        forall|i: int| 0 <= i < s.len() ==> s[i] < 128,
    ensures
        valid_utf8(s),
{
    assert(s.subrange(0, 0) =~= Seq::<u8>::empty());
    assert(valid_utf8(Seq::<u8>::empty()));
    assert(partial_valid_utf8(s, 0));
    assert(forall|i: int|
        0 <= i < s.len() ==> #[trigger] vstd::utf8::is_leading_byte_width_1(s[i]));
    partial_valid_utf8_extend_ascii_block(s, 0, s.len() as int);
    assert(s.subrange(0, s.len() as int) =~= s);
}

fn format_date(year: i32, month: u8, day: u8, sep: u8) -> (v: Vec<u8>)
    requires
        -9999 <= year <= 9999,
        month <= 99,
        day <= 99,
        sep < 128,
    ensures
        v@ == date_bytes(year as int, month as int, day as int, sep),
        valid_utf8(v@),
{
    let mut v: Vec<u8> = Vec::new();
    let yu: u32 = if year < 0 {
        v.push(45u8);
        (-year) as u32
    } else {
        year as u32
    };
    v.push(48 + (yu / 1000) as u8);
    v.push(48 + ((yu / 100) % 10) as u8);
    v.push(48 + ((yu / 10) % 10) as u8);
    v.push(48 + (yu % 10) as u8);
    v.push(sep);
    v.push(48 + month / 10);
    v.push(48 + month % 10);
    v.push(sep);
    v.push(48 + day / 10);
    v.push(48 + day % 10);
    proof {
        assert(v@ =~= date_bytes(year as int, month as int, day as int, sep));
        assert(forall|i: int| 0 <= i < v@.len() ==> v@[i] < 128);
        lemma_ascii_valid_utf8(v@);
    }
    v
}

/// The two candidate spellings offered for one date: slash-separated and
/// dash-separated.
pub open spec fn date_candidate_views(y: int, m: int, d: int) -> Seq<Seq<char>> {
    seq![decode_utf8(date_bytes(y, m, d, 47u8)), decode_utf8(date_bytes(y, m, d, 45u8))]
}

/// The candidate list for one calendar date, in the order the two spellings
/// are offered on the wire.
pub fn time_candidates(year: i32, month: u8, day: u8) -> (r: Vec<String>)
    requires
        -9999 <= year <= 9999,
        month <= 99,
        day <= 99,
    ensures
        r.deep_view() == date_candidate_views(year as int, month as int, day as int),
{
    let b1 = format_date(year, month, day, 47u8);
    let ghost g1 = b1@;
    let s1 = match string_from_bytes(b1) {
        Option::Some(s) => s,
        Option::None => unreached(),
    };
    let b2 = format_date(year, month, day, 45u8);
    let ghost g2 = b2@;
    let s2 = match string_from_bytes(b2) {
        Option::Some(s) => s,
        Option::None => unreached(),
    };
    let mut r: Vec<String> = Vec::new();
    r.push(s1);
    r.push(s2);
    proof {
        assert(r.deep_view() =~= date_candidate_views(
            year as int,
            month as int,
            day as int,
        ));
    }
    r
}

/// Relies on `time::OffsetDateTime::now_local` followed by `checked_add` of
/// a day count, and the `year`, `month` and `day` accessors: the local
/// calendar date the given number of days from now. `None` when the local
/// UTC offset cannot be determined or the shifted date leaves the supported
/// range. The accessors document a month in 1..=12, a day in 1..=31, and a
/// year within the crate's supported -9999..=9999.
#[verifier::external_body]
fn local_date_with_offset(days: i64) -> (r: Option<(i32, u8, u8)>)
    requires
        -366 <= days <= 366,
    ensures
        (match r {
            Option::Some(ymd) => -9999 <= ymd.0 <= 9999 && 1 <= ymd.1 <= 12 && 1 <= ymd.2 <= 31,
            Option::None => true,
        }),
{
    let now = match time::OffsetDateTime::now_local() {
        Ok(t) => t,
        Err(_) => return None,
    };
    match now.checked_add(time::Duration::days(days)) {
        Some(t) => Some((t.year(), u8::from(t.month()), t.day())),
        None => None,
    }
}

/// What the converter owes for a request word: a word outside the table
/// gets no candidates; candidates, when there are any, are the two
/// spellings of one calendar date and come only for a word in the table.
/// Which date it is depends on the clock and the local time zone, so no
/// more can be promised of it.
pub open spec fn candidates_post(input: Seq<char>, cs: Seq<Seq<char>>) -> bool {
    &&& offset_spec(input) is None ==> cs.len() == 0
    &&& cs.len() != 0 ==> offset_spec(input) is Some && (exists|y: int, m: int, d: int|
        -9999 <= y <= 9999 && 1 <= m <= 12 && 1 <= d <= 31 && cs == #[trigger] date_candidate_views(
            y,
            m,
            d,
        ))
}

/// The candidates offered for one request word: today's date shifted by the
/// word's day offset, in two spellings, or no candidates at all — for a word
/// outside the table, always; for a word in it, when the local date cannot
/// be determined.
pub fn convert(input: &str) -> (r: Vec<String>)
    ensures
        candidates_post(input@, r.deep_view()),
        r@.len() == r.deep_view().len(),
{
    match lookup_offset(input) {
        Option::None => Vec::new(),
        Option::Some(off) => match local_date_with_offset(off) {
            Option::Some((y, m, d)) => {
                let r = time_candidates(y, m, d);
                proof {
                    if r@.len() != 0 {
                        assert(-9999 <= y as int <= 9999 && 1 <= m as int <= 12 && 1 <= d as int
                            <= 31 && r.deep_view() == date_candidate_views(
                            y as int,
                            m as int,
                            d as int,
                        ));
                    }
                }
                r
            },
            Option::None => Vec::new(),
        },
    }
}

} // verus!
