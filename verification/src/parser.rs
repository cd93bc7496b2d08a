//! The transient record a visit extracts from a source page, and the
//! text-level parsing that turns raw page text into its fields.
//!
//! Interpreting the source site's markup (selecting elements out of a
//! document) is an external concern; the functions here work on the plain
//! text that such a selection hands over.

use vstd::prelude::*;
use vstd::string::StrSliceExecFns;
use vstd::string::StringExecFns;

verus! {

/// The stable integer key a node carries in the external source.
#[derive(Debug, PartialEq, Eq, Hash, Clone, Copy)]
pub struct Id(pub i32);

/// A record of a mathematician and their students
#[derive(Debug, PartialEq, Eq, Hash, Clone)]
pub struct ScrapeRecord {
    /// The name of the main mathematician
    pub name: String,
    /// A list of students mentored under the main mathematician
    pub students: Vec<Student>,
    /// The title of dissertation of the main mathematician
    pub dissertation: Option<String>,
    /// The university or equivalent institution where the main mathematician graduated
    pub school: Option<String>,
    /// The country where the main mathematician graduated
    pub country: Option<String>,
    /// The year when the main mathematician graduated
    pub year: Option<i16>,
    /// The title of the degree, such as "Ph.D."
    pub degree: Option<String>,
}

/// A student of a mathematician
#[derive(Debug, PartialEq, Eq, Hash, Clone)]
pub struct Student {
    /// The name of the student
    pub name: String,
    /// The id of the student as stored in the source's database
    pub id: Option<Id>,
    /// The school where the student graduated
    pub school: Option<String>,
    /// The year when the student graduated
    pub year: Option<i16>,
}

/// The whitespace the source's page text carries.
pub open spec fn is_ws_char(c: char) -> bool {
    c == ' ' || c == '\t' || c == '\n' || c == '\r'
}

/// How many whitespace characters the text begins with.
pub open spec fn ws_prefix_len(s: Seq<char>) -> int
    decreases s.len(),
{
    if s.len() == 0 || !is_ws_char(s[0]) {
        0
    } else {
        1 + ws_prefix_len(s.drop_first())
    }
}

/// How many whitespace characters the text ends with.
pub open spec fn ws_suffix_len(s: Seq<char>) -> int
    decreases s.len(),
{
    if s.len() == 0 || !is_ws_char(s.last()) {
        0
    } else {
        1 + ws_suffix_len(s.drop_last())
    }
}

/// The text with leading and trailing whitespace removed.
pub open spec fn trim_spec(s: Seq<char>) -> Seq<char> {
    let a = ws_prefix_len(s);
    let b = s.len() - ws_suffix_len(s);
    if a <= b {
        s.subrange(a, b)
    } else {
        Seq::<char>::empty()
    }
}

proof fn lemma_ws_prefix_len(s: Seq<char>)
    ensures
        0 <= ws_prefix_len(s) <= s.len(),
        forall|i: int| 0 <= i < ws_prefix_len(s) ==> is_ws_char(s[i]),
        ws_prefix_len(s) < s.len() ==> !is_ws_char(s[ws_prefix_len(s)]),
    decreases s.len(),
{
    if s.len() > 0 && is_ws_char(s[0]) {
        lemma_ws_prefix_len(s.drop_first());
        assert(forall|i: int|
            0 <= i < ws_prefix_len(s.drop_first()) ==> is_ws_char(s.drop_first()[i]));
        assert forall|i: int| 0 <= i < ws_prefix_len(s) implies is_ws_char(s[i]) by {
            if i >= 1 {
                assert(s[i] == s.drop_first()[i - 1]);
            }
        }
    }
}

proof fn lemma_ws_prefix_unique(s: Seq<char>, a: int)
    requires
        0 <= a <= s.len(),
        forall|i: int| 0 <= i < a ==> is_ws_char(s[i]),
        a < s.len() ==> !is_ws_char(s[a]),
    ensures
        a == ws_prefix_len(s),
{
    lemma_ws_prefix_len(s);
}

proof fn lemma_ws_suffix_len(s: Seq<char>)
    ensures
        0 <= ws_suffix_len(s) <= s.len(),
        forall|i: int| s.len() - ws_suffix_len(s) <= i < s.len() ==> is_ws_char(s[i]),
        ws_suffix_len(s) < s.len() ==> !is_ws_char(s[s.len() - ws_suffix_len(s) - 1]),
    decreases s.len(),
{
    if s.len() > 0 && is_ws_char(s.last()) {
        lemma_ws_suffix_len(s.drop_last());
        assert forall|i: int| s.len() - ws_suffix_len(s) <= i < s.len() implies is_ws_char(
            s[i],
        ) by {
            if i < s.len() - 1 {
                assert(s[i] == s.drop_last()[i]);
            }
        }
    }
}

proof fn lemma_ws_suffix_unique(s: Seq<char>, k: int)
    requires
        0 <= k <= s.len(),
        forall|i: int| s.len() - k <= i < s.len() ==> is_ws_char(s[i]),
        k < s.len() ==> !is_ws_char(s[s.len() - k - 1]),
    ensures
        k == ws_suffix_len(s),
{
    lemma_ws_suffix_len(s);
}

fn char_is_ws(c: char) -> (r: bool)
    ensures
        r == is_ws_char(c),
{
    c == ' ' || c == '\t' || c == '\n' || c == '\r'
}

/// Remove leading and trailing whitespace from page text.
pub fn trim_text(s: &str) -> (r: &str)
    ensures
        r@ == trim_spec(s@),
{
    let n = s.unicode_len();
    let mut a: usize = 0;
    while a < n && char_is_ws(s.get_char(a))
        invariant
            0 <= a <= n,
            n == s@.len(),
            forall|i: int| 0 <= i < a ==> is_ws_char(s@[i]),
        decreases n - a,
    {
        a += 1;
    }
    let mut b: usize = n;
    while b > a && char_is_ws(s.get_char(b - 1))
        invariant
            a <= b <= n,
            n == s@.len(),
            forall|i: int| b <= i < n ==> is_ws_char(s@[i]),
        decreases b,
    {
        b -= 1;
    }
    let r = s.substring_char(a, b);
    proof {
        if a == n {
            lemma_ws_prefix_unique(s@, a as int);
            lemma_ws_suffix_len(s@);
            assert(trim_spec(s@) =~= r@);
        } else {
            assert(!is_ws_char(s@[a as int]));
            lemma_ws_prefix_unique(s@, a as int);
            if b == a {
                assert(is_ws_char(s@[a as int]));
            }
            assert(b > a);
            assert(!is_ws_char(s@[b as int - 1]));
            lemma_ws_suffix_unique(s@, n as int - b as int);
            assert(trim_spec(s@) =~= r@);
        }
    }
    r
}

/// The index of the first comma, or the text's length when it has none.
pub open spec fn first_comma(s: Seq<char>) -> int
    decreases s.len(),
{
    if s.len() == 0 || s[0] == ',' {
        0
    } else {
        1 + first_comma(s.drop_first())
    }
}

proof fn lemma_first_comma(s: Seq<char>)
    ensures
        0 <= first_comma(s) <= s.len(),
        forall|i: int| 0 <= i < first_comma(s) ==> s[i] != ',',
        first_comma(s) < s.len() ==> s[first_comma(s)] == ',',
    decreases s.len(),
{
    if s.len() > 0 && s[0] != ',' {
        lemma_first_comma(s.drop_first());
        assert forall|i: int| 0 <= i < first_comma(s) implies s[i] != ',' by {
            if i >= 1 {
                assert(s[i] == s.drop_first()[i - 1]);
            }
        }
    }
}

proof fn lemma_first_comma_unique(s: Seq<char>, a: int)
    requires
        0 <= a <= s.len(),
        forall|i: int| 0 <= i < a ==> s[i] != ',',
        a < s.len() ==> s[a] == ',',
    ensures
        a == first_comma(s),
{
    lemma_first_comma(s);
}

/// The text's segments between commas, in order.
pub open spec fn comma_split(s: Seq<char>) -> Seq<Seq<char>>
    decreases s.len(),
{
    let i = first_comma(s);
    if 0 <= i < s.len() {
        seq![s.subrange(0, i)] + comma_split(s.subrange(i + 1, s.len() as int))
    } else {
        seq![s]
    }
}

/// Each segment trimmed, each followed by one space.
pub open spec fn join_reordered(segs: Seq<Seq<char>>) -> Seq<char>
    decreases segs.len(),
{
    if segs.len() == 0 {
        Seq::<char>::empty()
    } else {
        trim_spec(segs[0]) + seq![' '] + join_reordered(segs.drop_first())
    }
}

/// A surname-first name put into given-name-first order: the segments
/// after the first comma come first, each trimmed and followed by one
/// space, and the segment before the comma (the surname) comes last.
/// A name without a comma is merely trimmed.
pub open spec fn parse_name_spec(s: Seq<char>) -> Seq<char> {
    let segs = comma_split(s);
    if segs.len() <= 1 {
        trim_spec(s)
    } else {
        join_reordered(segs.drop_first()) + trim_spec(segs[0])
    }
}

/// Find the first comma of the text, scanning left to right.
fn find_comma(s: &str) -> (a: usize)
    ensures
        a as int == first_comma(s@),
        a <= s@.len(),
{
    let n = s.unicode_len();
    let mut a: usize = 0;
    while a < n && s.get_char(a) != ','
        invariant
            0 <= a <= n,
            n == s@.len(),
            forall|i: int| 0 <= i < a ==> s@[i] != ',',
        decreases n - a,
    {
        a += 1;
    }
    proof {
        lemma_first_comma_unique(s@, a as int);
    }
    a
}

/// Append the trimmed segments of the text, each followed by one space.
fn append_reordered(s: &str, out: &mut String)
    ensures
        final(out)@ == old(out)@ + join_reordered(comma_split(s@)),
    decreases s@.len(),
{
    let n = s.unicode_len();
    let a = find_comma(s);
    if a < n {
        let head = s.substring_char(0, a);
        out.append(trim_text(head));
        out.append(" ");
        let tail = s.substring_char(a + 1, n);
        append_reordered(tail, out);
        proof {
            reveal_strlit(" ");
            let segs = comma_split(s@);
            assert(segs == seq![s@.subrange(0, a as int)] + comma_split(tail@));
            assert(segs[0] == s@.subrange(0, a as int));
            assert(segs.drop_first() =~= comma_split(tail@));
            assert(out@ =~= old(out)@ + join_reordered(segs));
        }
    } else {
        out.append(trim_text(s));
        out.append(" ");
        proof {
            reveal_strlit(" ");
            let segs = comma_split(s@);
            assert(segs == seq![s@]);
            assert(segs.drop_first() =~= Seq::<Seq<char>>::empty());
            assert(join_reordered(segs.drop_first()) =~= Seq::<char>::empty());
            assert(out@ =~= old(out)@ + join_reordered(segs));
        }
    }
}

/// Reorder a surname-first name ("Tso, Tai-Yih") into given-name-first
/// order ("Tai-Yih Tso"); a name without a comma is merely trimmed.
pub fn parse_name(name: &str) -> (r: String)
    ensures
        r@ == parse_name_spec(name@),
{
    let n = name.unicode_len();
    let a = find_comma(name);
    if a >= n {
        proof {
            assert(comma_split(name@) == seq![name@]);
        }
        return trim_text(name).to_owned();
    }
    let mut out = String::new();
    let tail = name.substring_char(a + 1, n);
    append_reordered(tail, &mut out);
    let head = name.substring_char(0, a);
    out.append(trim_text(head));
    proof {
        let segs = comma_split(name@);
        assert(segs == seq![name@.subrange(0, a as int)] + comma_split(tail@));
        assert(segs.len() >= 2);
        assert(segs[0] == name@.subrange(0, a as int));
        assert(segs.drop_first() =~= comma_split(tail@));
        assert(out@ =~= parse_name_spec(name@));
    }
    out
}

/// A decimal digit.
pub open spec fn is_digit_char(c: char) -> bool {
    48 <= c as u32 <= 57
}

/// The value of a decimal digit.
pub open spec fn digit_val(c: char) -> int {
    c as u32 - 48
}

/// The value of a run of decimal digits, most significant first.
pub open spec fn digits_val(s: Seq<char>) -> int
    decreases s.len(),
{
    if s.len() == 0 {
        0
    } else {
        digits_val(s.drop_last()) * 10 + digit_val(s.last())
    }
}

pub open spec fn all_digits(s: Seq<char>) -> bool {
    forall|i: int| 0 <= i < s.len() ==> is_digit_char(s[i])
}

/// The digits of an integer literal: what follows an optional sign.
pub open spec fn int_digits(s: Seq<char>) -> Seq<char> {
    if s.len() > 0 && (s[0] == '+' || s[0] == '-') {
        s.drop_first()
    } else {
        s
    }
}

pub open spec fn int_sign(s: Seq<char>) -> int {
    if s.len() > 0 && s[0] == '-' {
        -1
    } else {
        1
    }
}

pub open spec fn int_val(s: Seq<char>) -> int {
    int_sign(s) * digits_val(int_digits(s))
}

/// What parsing the text as a bounded signed integer yields: the value
/// when the text is an optional sign followed by one or more digits and
/// the value lies within the bounds; nothing otherwise.
pub open spec fn parse_int_spec(s: Seq<char>, lo: int, hi: int) -> Option<int> {
    if int_digits(s).len() > 0 && all_digits(int_digits(s)) && lo <= int_val(s) <= hi {
        Some(int_val(s))
    } else {
        None
    }
}

proof fn lemma_digits_val_mono(s: Seq<char>)
    requires
        all_digits(s),
    ensures
        digits_val(s) >= 0,
        forall|k: int| 0 <= k <= s.len() ==> digits_val(#[trigger] s.take(k)) <= digits_val(s),
    decreases s.len(),
{
    if s.len() == 0 {
        assert forall|k: int| 0 <= k <= s.len() implies digits_val(#[trigger] s.take(k))
            <= digits_val(s) by {
            assert(s.take(k) =~= s);
        }
    } else {
        let d = s.drop_last();
        assert(all_digits(d));
        lemma_digits_val_mono(d);
        assert(digits_val(s) == digits_val(d) * 10 + digit_val(s.last()));
        assert(digit_val(s.last()) >= 0);
        assert(digits_val(d) * 10 >= digits_val(d));
        assert forall|k: int| 0 <= k <= s.len() implies digits_val(#[trigger] s.take(k))
            <= digits_val(s) by {
            if k < s.len() {
                assert(s.take(k) =~= d.take(k));
            } else {
                assert(s.take(k) =~= s);
            }
        }
    }
}

/// Parse text as a signed decimal integer within bounds, as an integer
/// parse does: optional sign, one or more digits, nothing else, value in
/// range; any other text, and any out-of-range value, yields nothing.
fn parse_in_range(s: &str, lo: i64, hi: i64) -> (r: Option<i64>)
    requires
        -9_999_999_999 <= lo <= 0 <= hi <= 9_999_999_999,
    ensures
        r matches Some(v) ==> parse_int_spec(s@, lo as int, hi as int) == Some(v as int),
        r is None ==> parse_int_spec(s@, lo as int, hi as int) is None,
{
    let n = s.unicode_len();
    let mut j: usize = 0;
    let mut negative = false;
    if n > 0 {
        let c0 = s.get_char(0);
        if c0 == '+' {
            j = 1;
        } else if c0 == '-' {
            negative = true;
            j = 1;
        }
    }
    let ghost ds: Seq<char> = int_digits(s@);
    let ghost start: int = j as int;
    proof {
        assert(ds =~= s@.subrange(start, n as int));
    }
    if j >= n {
        return None;
    }
    let mut acc: i64 = 0;
    let mut k: usize = j;
    while k < n
        invariant
            j <= k <= n,
            n == s@.len(),
            start == j as int,
            -9_999_999_999 <= lo <= 0 <= hi <= 9_999_999_999,
            ds == int_digits(s@),
            ds == s@.subrange(start, n as int),
            forall|i: int| 0 <= i < k - start ==> is_digit_char(ds[i]),
            acc == digits_val(ds.take(k - start)),
            0 <= acc <= 9_999_999_999,
        decreases n - k,
    {
        let c = s.get_char(k);
        let cv = c as u32;
        if cv < 48 || cv > 57 {
            proof {
                assert(ds[k as int - start] == s@[k as int]);
                assert(!all_digits(ds));
            }
            return None;
        }
        let d = (cv - 48) as i64;
        let acc2 = acc * 10 + d;
        proof {
            assert(ds.take(k - start + 1).drop_last() =~= ds.take(k - start));
            assert(ds.take(k - start + 1).last() == ds[k as int - start]);
            assert(ds[k as int - start] == s@[k as int]);
            assert(digit_val(s@[k as int]) == d as int);
            assert(acc2 == digits_val(ds.take(k - start + 1)));
        }
        if acc2 > 9_999_999_999 {
            proof {
                if all_digits(ds) {
                    lemma_digits_val_mono(ds);
                    assert(digits_val(ds.take(k - start + 1)) <= digits_val(ds));
                    assert(digits_val(ds) > hi as int);
                    assert(-digits_val(ds) < lo as int);
                }
            }
            return None;
        }
        acc = acc2;
        k += 1;
    }
    proof {
        assert(ds.take(n as int - start) =~= ds);
        assert(acc == digits_val(ds));
        assert(all_digits(ds));
        assert(ds.len() > 0);
    }
    let v: i64 = if negative {
        -acc
    } else {
        acc
    };
    proof {
        assert(v as int == int_val(s@));
    }
    if v < lo || v > hi {
        None
    } else {
        Some(v)
    }
}

/// Parse page text as a year: what a 16-bit signed integer parse of the
/// text yields, if anything.
pub fn parse_year_text(s: &str) -> (r: Option<i16>)
    ensures
        r matches Some(v) ==> parse_int_spec(s@, -32768, 32767) == Some(v as int),
        r is None ==> parse_int_spec(s@, -32768, 32767) is None,
{
    match parse_in_range(s, -32768, 32767) {
        Some(v) => Some(v as i16),
        None => None,
    }
}

/// The year a text yields: trimmed, then parsed as a 16-bit integer.
pub open spec fn year_of_text(t: Seq<char>) -> Option<int> {
    parse_int_spec(trim_spec(t), -32768, 32767)
}

/// The first text that parses as a year, in order: how the graduation
/// year is read off a page section's texts.
pub fn parse_year(texts: &Vec<String>) -> (r: Option<i16>)
    ensures
        r matches Some(y) ==> exists|i: int|
            0 <= i < texts@.len() && year_of_text(#[trigger] texts@[i]@) == Some(y as int) && (
            forall|j: int| 0 <= j < i ==> year_of_text(#[trigger] texts@[j]@) is None),
        r is None ==> forall|j: int|
            0 <= j < texts@.len() ==> year_of_text(#[trigger] texts@[j]@) is None,
{
    let mut i: usize = 0;
    while i < texts.len()
        invariant
            0 <= i <= texts@.len(),
            forall|j: int| 0 <= j < i ==> year_of_text(#[trigger] texts@[j]@) is None,
        decreases texts@.len() - i,
    {
        let trimmed = trim_text(texts[i].as_str());
        if let Some(y) = parse_year_text(trimmed) {
            proof {
                assert(year_of_text(texts@[i as int]@) == Some(y as int));
            }
            return Some(y);
        }
        i += 1;
    }
    None
}

/// The digit run the text begins with.
pub open spec fn digit_prefix_len(s: Seq<char>) -> int
    decreases s.len(),
{
    if s.len() == 0 || !is_digit_char(s[0]) {
        0
    } else {
        1 + digit_prefix_len(s.drop_first())
    }
}

proof fn lemma_digit_prefix_len(s: Seq<char>)
    ensures
        0 <= digit_prefix_len(s) <= s.len(),
        forall|i: int| 0 <= i < digit_prefix_len(s) ==> is_digit_char(s[i]),
        digit_prefix_len(s) < s.len() ==> !is_digit_char(s[digit_prefix_len(s)]),
    decreases s.len(),
{
    if s.len() > 0 && is_digit_char(s[0]) {
        lemma_digit_prefix_len(s.drop_first());
        assert forall|i: int| 0 <= i < digit_prefix_len(s) implies is_digit_char(s[i]) by {
            if i >= 1 {
                assert(s[i] == s.drop_first()[i - 1]);
            }
        }
    }
}

proof fn lemma_digit_prefix_unique(s: Seq<char>, a: int)
    requires
        0 <= a <= s.len(),
        forall|i: int| 0 <= i < a ==> is_digit_char(s[i]),
        a < s.len() ==> !is_digit_char(s[a]),
    ensures
        a == digit_prefix_len(s),
{
    lemma_digit_prefix_len(s);
}

fn char_is_digit(c: char) -> (r: bool)
    ensures
        r == is_digit_char(c),
{
    let cv = c as u32;
    48 <= cv && cv <= 57
}

/// A student link's identifier marker, followed by at least one digit,
/// begins at this index.
pub open spec fn marker_at(s: Seq<char>, i: int) -> bool {
    &&& 0 <= i
    &&& i + 10 < s.len()
    &&& s[i] == 'i'
    &&& s[i + 1] == 'd'
    &&& s[i + 2] == '.'
    &&& s[i + 3] == 'p'
    &&& s[i + 4] == 'h'
    &&& s[i + 5] == 'p'
    &&& s[i + 6] == '?'
    &&& s[i + 7] == 'i'
    &&& s[i + 8] == 'd'
    &&& s[i + 9] == '='
    &&& is_digit_char(s[i + 10])
}

/// Where the first marker match begins, or the length when none does.
pub open spec fn first_marker(s: Seq<char>) -> int
    decreases s.len(),
{
    if s.len() == 0 || marker_at(s, 0) {
        0
    } else {
        1 + first_marker(s.drop_first())
    }
}

proof fn lemma_marker_shift(s: Seq<char>, i: int)
    requires
        s.len() > 0,
        i >= 0,
    ensures
        marker_at(s, i + 1) == marker_at(s.drop_first(), i),
{
    let d = s.drop_first();
    assert(forall|j: int| 0 <= j < d.len() ==> d[j] == s[j + 1]);
}

proof fn lemma_first_marker(s: Seq<char>)
    ensures
        0 <= first_marker(s) <= s.len(),
        forall|i: int| 0 <= i < first_marker(s) ==> !marker_at(s, i),
        first_marker(s) < s.len() ==> marker_at(s, first_marker(s)),
    decreases s.len(),
{
    if s.len() > 0 && !marker_at(s, 0) {
        let d = s.drop_first();
        lemma_first_marker(d);
        assert forall|i: int| 0 <= i < first_marker(s) implies !marker_at(s, i) by {
            if i >= 1 {
                lemma_marker_shift(s, i - 1);
            }
        }
        if first_marker(s) < s.len() {
            lemma_marker_shift(s, first_marker(s) - 1);
        }
    }
}

proof fn lemma_first_marker_unique(s: Seq<char>, a: int)
    requires
        0 <= a <= s.len(),
        forall|i: int| 0 <= i < a ==> !marker_at(s, i),
        a < s.len() ==> marker_at(s, a),
    ensures
        a == first_marker(s),
{
    lemma_first_marker(s);
}

/// A link holds a student identifier: some marker match exists.
pub open spec fn href_has_id(s: Seq<char>) -> bool {
    first_marker(s) < s.len()
}

/// The digits the first marker match captures.
pub open spec fn href_digits(s: Seq<char>) -> Seq<char> {
    let d = first_marker(s) + 10;
    s.subrange(d, d + digit_prefix_len(s.skip(d)))
}

/// Does the marker, followed by a digit, begin at this index?
fn marker_match(s: &str, i: usize) -> (r: bool)
    requires
        i < s@.len(),
    ensures
        r == marker_at(s@, i as int),
{
    let n = s.unicode_len();
    if n - i <= 10 {
        return false;
    }
    s.get_char(i) == 'i' && s.get_char(i + 1) == 'd' && s.get_char(i + 2) == '.' && s.get_char(
        i + 3,
    ) == 'p' && s.get_char(i + 4) == 'h' && s.get_char(i + 5) == 'p' && s.get_char(i + 6) == '?'
        && s.get_char(i + 7) == 'i' && s.get_char(i + 8) == 'd' && s.get_char(i + 9) == '='
        && char_is_digit(s.get_char(i + 10))
}

/// The student identifier in a link: the digit run its first marker
/// captures. Nothing when the link holds no marker (the row is not a
/// student link); an empty identifier when the digits overflow the
/// identifier type, as an integer parse of the capture would.
pub fn id_in_href(href: &str) -> (r: Option<Option<Id>>)
    ensures
        (r is None) <==> !href_has_id(href@),
        r matches Some(opt) ==> (match opt {
            Some(id) => id.0 >= 0 && digits_val(href_digits(href@)) == id.0 as int,
            None => digits_val(href_digits(href@)) > 0x7fffffff,
        }),
{
    let n = href.unicode_len();
    let mut i: usize = 0;
    while i < n && !marker_match(href, i)
        invariant
            0 <= i <= n,
            n == href@.len(),
            forall|j: int| 0 <= j < i ==> !marker_at(href@, j),
        decreases n - i,
    {
        i += 1;
    }
    proof {
        lemma_first_marker_unique(href@, i as int);
    }
    if i >= n {
        return None;
    }
    let dstart = i + 10;
    let mut e = dstart;
    while e < n && char_is_digit(href.get_char(e))
        invariant
            dstart <= e <= n,
            n == href@.len(),
            forall|j: int| dstart <= j < e ==> is_digit_char(href@[j]),
        decreases n - e,
    {
        e += 1;
    }
    proof {
        assert(forall|j: int|
            0 <= j < e - dstart ==> href@.skip(dstart as int)[j] == href@[dstart + j]);
        lemma_digit_prefix_unique(href@.skip(dstart as int), e as int - dstart as int);
        assert(href_digits(href@) =~= href@.subrange(dstart as int, e as int));
        assert(href@.subrange(dstart as int, dstart as int) =~= Seq::<char>::empty());
    }
    let mut acc: i64 = 0;
    let mut k: usize = dstart;
    while k < e
        invariant
            dstart <= k <= e <= n,
            n == href@.len(),
            href_has_id(href@),
            forall|j: int| dstart <= j < e ==> is_digit_char(href@[j]),
            href_digits(href@) == href@.subrange(dstart as int, e as int),
            acc == digits_val(href@.subrange(dstart as int, k as int)),
            0 <= acc <= 9_999_999_999,
        decreases e - k,
    {
        let c = href.get_char(k);
        let d = (c as u32 - 48) as i64;
        let acc2 = acc * 10 + d;
        proof {
            let pre = href@.subrange(dstart as int, k as int + 1);
            assert(pre.drop_last() =~= href@.subrange(dstart as int, k as int));
            assert(pre.last() == href@[k as int]);
            assert(acc2 == digits_val(pre));
        }
        if acc2 > 9_999_999_999 {
            proof {
                let hd = href@.subrange(dstart as int, e as int);
                assert(all_digits(hd));
                lemma_digits_val_mono(hd);
                assert(hd.take(k - dstart + 1) =~= href@.subrange(dstart as int, k as int + 1));
                assert(digits_val(hd) >= acc2 as int);
            }
            return Some(None);
        }
        acc = acc2;
        k += 1;
    }
    proof {
        assert(href@.subrange(dstart as int, e as int) == href_digits(href@));
    }
    if acc > 0x7fffffff {
        Some(None)
    } else {
        Some(Some(Id(acc as i32)))
    }
}

/// The dissertation title a thesis section's text yields: the trimmed
/// text, or nothing when only whitespace remains.
pub fn dissertation_from_text(text: &str) -> (r: Option<String>)
    ensures
        trim_spec(text@).len() == 0 ==> r is None,
        trim_spec(text@).len() > 0 ==> (r matches Some(t) && t@ == trim_spec(text@)),
{
    let t = trim_text(text);
    if t.is_empty() {
        None
    } else {
        Some(t.to_owned())
    }
}

/// The run of non-whitespace the text begins with.
pub open spec fn word_prefix_len(s: Seq<char>) -> int
    decreases s.len(),
{
    if s.len() == 0 || is_ws_char(s[0]) {
        0
    } else {
        1 + word_prefix_len(s.drop_first())
    }
}

proof fn lemma_word_prefix_len(s: Seq<char>)
    ensures
        0 <= word_prefix_len(s) <= s.len(),
        forall|i: int| 0 <= i < word_prefix_len(s) ==> !is_ws_char(s[i]),
        word_prefix_len(s) < s.len() ==> is_ws_char(s[word_prefix_len(s)]),
    decreases s.len(),
{
    if s.len() > 0 && !is_ws_char(s[0]) {
        lemma_word_prefix_len(s.drop_first());
        assert forall|i: int| 0 <= i < word_prefix_len(s) implies !is_ws_char(s[i]) by {
            if i >= 1 {
                assert(s[i] == s.drop_first()[i - 1]);
            }
        }
    }
}

proof fn lemma_word_prefix_unique(s: Seq<char>, a: int)
    requires
        0 <= a <= s.len(),
        forall|i: int| 0 <= i < a ==> !is_ws_char(s[i]),
        a < s.len() ==> is_ws_char(s[a]),
    ensures
        a == word_prefix_len(s),
{
    lemma_word_prefix_len(s);
}

/// The whitespace-separated words of the text, from an index on.
pub open spec fn words_from(s: Seq<char>, i: int) -> Seq<Seq<char>>
    decreases s.len() - i,
{
    if i < 0 || i >= s.len() {
        Seq::<Seq<char>>::empty()
    } else if is_ws_char(s[i]) {
        words_from(s, i + 1)
    } else {
        let w = word_prefix_len(s.skip(i));
        let wa = if w < 1 {
            1
        } else {
            w
        };
        let w1 = if wa > s.len() - i {
            s.len() - i
        } else {
            wa
        };
        seq![s.subrange(i, i + w1)] + words_from(s, i + w1)
    }
}

/// The words joined by single spaces.
pub open spec fn join_words(ws: Seq<Seq<char>>) -> Seq<char>
    decreases ws.len(),
{
    if ws.len() == 0 {
        Seq::<char>::empty()
    } else if ws.len() == 1 {
        ws[0]
    } else {
        ws[0] + seq![' '] + join_words(ws.drop_first())
    }
}

/// A display name normalized: its words joined by single spaces, with
/// leading, trailing and repeated whitespace gone.
pub open spec fn normalize_ws_spec(s: Seq<char>) -> Seq<char> {
    join_words(words_from(s, 0))
}

proof fn lemma_words_nonempty(s: Seq<char>, i: int)
    ensures
        forall|k: int| 0 <= k < words_from(s, i).len() ==> words_from(s, i)[k].len() >= 1,
    decreases s.len() - i,
{
    if 0 <= i < s.len() {
        if is_ws_char(s[i]) {
            lemma_words_nonempty(s, i + 1);
            assert(words_from(s, i) == words_from(s, i + 1));
            assert forall|k: int| 0 <= k < words_from(s, i).len() implies words_from(s, i)[k].len()
                >= 1 by {
                assert(words_from(s, i + 1)[k].len() >= 1);
            }
        } else {
            lemma_word_prefix_len(s.skip(i));
            assert(s.skip(i)[0] == s[i]);
            let w = word_prefix_len(s.skip(i));
            assert(1 <= w <= s.len() - i);
            let w1 = w;
            lemma_words_nonempty(s, i + w1);
            assert(words_from(s, i)[0].len() == w1);
            assert forall|k: int| 0 <= k < words_from(s, i).len() implies words_from(s, i)[k].len()
                >= 1 by {
                if k >= 1 {
                    assert(words_from(s, i)[k] == words_from(s, i + w1)[k - 1]);
                }
            }
        }
    }
}

proof fn lemma_join_empty(ws: Seq<Seq<char>>)
    requires
        forall|k: int| 0 <= k < ws.len() ==> ws[k].len() >= 1,
    ensures
        (join_words(ws).len() == 0) == (ws.len() == 0),
{
}

/// Normalize a display name: the page's heading text with whitespace
/// runs collapsed to single spaces and the ends trimmed.
pub fn normalize_name(text: &str) -> (r: String)
    ensures
        r@ == normalize_ws_spec(text@),
{
    normalize_from(text, 0)
}

fn normalize_from(s: &str, from: usize) -> (r: String)
    requires
        from <= s@.len(),
    ensures
        r@ == join_words(words_from(s@, from as int)),
    decreases s@.len() - from,
{
    let n = s.unicode_len();
    let mut j = from;
    while j < n && char_is_ws(s.get_char(j))
        invariant
            from <= j <= n,
            n == s@.len(),
            words_from(s@, from as int) == words_from(s@, j as int),
        decreases n - j,
    {
        j += 1;
    }
    if j >= n {
        return String::new();
    }
    let mut k = j;
    while k < n && !char_is_ws(s.get_char(k))
        invariant
            j <= k <= n,
            n == s@.len(),
            forall|x: int| j <= x < k ==> !is_ws_char(s@[x]),
        decreases n - k,
    {
        k += 1;
    }
    proof {
        assert(forall|x: int| 0 <= x < s@.len() - j ==> s@.skip(j as int)[x] == s@[j + x]);
        lemma_word_prefix_unique(s@.skip(j as int), k as int - j as int);
        assert(words_from(s@, j as int) == seq![s@.subrange(j as int, k as int)] + words_from(
            s@,
            k as int,
        ));
    }
    let word = s.substring_char(j, k);
    let rest = normalize_from(s, k);
    let ghost ws_all: Seq<Seq<char>> = words_from(s@, from as int);
    let ghost ws_rest: Seq<Seq<char>> = words_from(s@, k as int);
    proof {
        assert(ws_all[0] == s@.subrange(j as int, k as int));
        assert(ws_all.drop_first() =~= ws_rest);
    }
    if rest.as_str().is_empty() {
        proof {
            lemma_words_nonempty(s@, k as int);
            lemma_join_empty(ws_rest);
            assert(ws_all.len() == 1);
        }
        word.to_owned()
    } else {
        let mut out = word.to_owned();
        out.append(" ");
        out.append(rest.as_str());
        proof {
            reveal_strlit(" ");
            assert(ws_rest.len() > 0);
            assert(ws_all.len() >= 2);
            assert(out@ =~= join_words(ws_all));
        }
        out
    }
}

/// Build a student stub from the texts of one row of the students
/// table: the name cell's text and its link target, the school cell's
/// text when it has one, and the year cell's text when the row has one.
/// Nothing when the link holds no identifier marker: such a row does
/// not name a student.
pub fn student_from_row(
    name_text: &str,
    href: &str,
    school_text: Option<&str>,
    year_text: Option<&str>,
) -> (r: Option<Student>)
    ensures
        (r is None) <==> !href_has_id(href@),
        r matches Some(st) ==> ({
            &&& st.name@ == parse_name_spec(name_text@)
            &&& (match st.id {
                Some(id) => id.0 >= 0 && digits_val(href_digits(href@)) == id.0 as int,
                None => digits_val(href_digits(href@)) > 0x7fffffff,
            })
            &&& (match (school_text, st.school) {
                (Some(t), Some(sc)) => sc@ == trim_spec(t@),
                (None, None) => true,
                _ => false,
            })
            &&& (match (year_text, st.year) {
                (Some(t), Some(y)) => parse_int_spec(trim_spec(t@), -32768, 32767) == Some(
                    y as int,
                ),
                (Some(t), None) => parse_int_spec(trim_spec(t@), -32768, 32767) is None,
                (None, None) => true,
                _ => false,
            })
        }),
{
    match id_in_href(href) {
        None => None,
        Some(id) => {
            let name = parse_name(name_text);
            let school = match school_text {
                Some(t) => Some(trim_text(t).to_owned()),
                None => None,
            };
            let year = match year_text {
                Some(t) => parse_year_text(trim_text(t)),
                None => None,
            };
            Some(Student { name, id, school, year })
        },
    }
}

} // verus!
