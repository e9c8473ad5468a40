//! Character-level text utilities shared by the tokenizers and processors.
//!
//! Strings are modelled by their view, a `Seq<char>`. Character classes and
//! case mappings come from std and are named here; splitting and trimming on
//! white space are defined over those names and implemented with proofs.
use vstd::prelude::*;

verus! {

broadcast use vstd::string::group_string_axioms;

/// The Unicode `White_Space` property of a character: tab through carriage
/// return, space, U+0085, U+00A0, U+1680, U+2000 through U+200A, U+2028,
/// U+2029, U+202F, U+205F and U+3000.
pub open spec fn white_space(c: char) -> bool {
    let u = c as u32;
    ||| 0x09 <= u <= 0x0d
    ||| u == 0x20
    ||| u == 0x85
    ||| u == 0xa0
    ||| u == 0x1680
    ||| 0x2000 <= u <= 0x200a
    ||| u == 0x2028
    ||| u == 0x2029
    ||| u == 0x202f
    ||| u == 0x205f
    ||| u == 0x3000
}

/// Whether `char::is_alphanumeric` holds of a character.
pub uninterp spec fn alphanumeric(c: char) -> bool;

/// The first character of the lowercase mapping of a character (`char::to_lowercase`).
pub uninterp spec fn lower_char(c: char) -> Option<char>;

/// The lowercase mapping of a whole string (`str::to_lowercase`).
pub uninterp spec fn lowercase(s: Seq<char>) -> Seq<char>;

/// The ASCII letters and digits.
pub open spec fn ascii_alphanumeric(c: char) -> bool {
    ('a' <= c && c <= 'z') || ('A' <= c && c <= 'Z') || ('0' <= c && c <= '9')
}

pub open spec fn is_ascii_char(c: char) -> bool {
    (c as u32) < 128
}

pub open spec fn is_ascii_seq(s: Seq<char>) -> bool {
    forall|i: int| 0 <= i < s.len() ==> is_ascii_char(#[trigger] s[i])
}

/// Lowercase mapping of an ASCII character.
pub open spec fn ascii_lower(c: char) -> char {
    if 'A' <= c && c <= 'Z' {
        ((c as u32) + 32) as char
    } else {
        c
    }
}

pub open spec fn ascii_lower_seq(s: Seq<char>) -> Seq<char> {
    s.map_values(|c: char| ascii_lower(c))
}

/// Whether a character has the Unicode `White_Space` property, as
/// `char::is_whitespace` decides it (see `white_space`).
pub(crate) fn char_is_whitespace(c: char) -> (b: bool)
    ensures
        b == white_space(c),
{
    let u = c as u32;
    (0x09 <= u && u <= 0x0d) || u == 0x20 || u == 0x85 || u == 0xa0 || u == 0x1680
        || (0x2000 <= u && u <= 0x200a) || u == 0x2028 || u == 0x2029 || u == 0x202f
        || u == 0x205f || u == 0x3000
}

/// `char::is_alphanumeric`: alphabetic or numeric; among ASCII characters
/// exactly the letters and digits.
#[verifier::external_body]
pub(crate) fn char_is_alphanumeric(c: char) -> (b: bool)
    ensures
        b == alphanumeric(c),
        is_ascii_char(c) ==> (b <==> ascii_alphanumeric(c)),
{
    c.is_alphanumeric()
}

/// The first character that `char::to_lowercase` yields; the mapping always
/// yields at least one character, and maps ASCII characters by ASCII case.
#[verifier::external_body]
pub(crate) fn char_lower_first(c: char) -> (r: Option<char>)
    ensures
        r == lower_char(c),
        r is Some,
        is_ascii_char(c) ==> r == Some(ascii_lower(c)),
{
    c.to_lowercase().next()
}

/// `str::to_lowercase`; on an ASCII string it lowercases the ASCII letters and
/// keeps every other character.
#[verifier::external_body]
pub(crate) fn str_to_lowercase(s: &str) -> (r: String)
    ensures
        r@ == lowercase(s@),
        is_ascii_seq(s@) ==> r@ == ascii_lower_seq(s@),
{
    s.to_lowercase()
}

/// `String::push`: appends one character.
#[verifier::external_body]
pub(crate) fn string_push(s: &mut String, c: char)
    ensures
        final(s)@ == old(s)@.push(c),
{
    s.push(c)
}

/// The characters of a string, in order.
pub fn chars_of(s: &str) -> (r: Vec<char>)
    ensures
        r@ == s@,
{
    let mut out: Vec<char> = Vec::new();
    let chars_it = s.chars();
    for c in it: chars_it
        invariant
            it.seq() == s@,
            out@ == s@.take(it.index() as int),
    {
        out.push(c);
    }
    assert(out@ =~= s@);
    out
}

/// Appends the characters of `cs[from..to]` to `s`.
pub fn push_chars(s: &mut String, cs: &[char], from: usize, to: usize)
    requires
        from <= to <= cs@.len(),
    ensures
        final(s)@ == old(s)@ + cs@.subrange(from as int, to as int),
{
    let mut i = from;
    while i < to
        invariant
            from <= i <= to <= cs@.len(),
            s@ == old(s)@ + cs@.subrange(from as int, i as int),
        decreases to - i,
    {
        string_push(s, cs[i]);
        i = i + 1;
        assert(cs@.subrange(from as int, i as int) =~= cs@.subrange(from as int, (i - 1) as int).push(cs@[i - 1]));
    }
}

/// A string holding exactly the given characters.
pub fn string_of(cs: &[char]) -> (r: String)
    ensures
        r@ == cs@,
{
    let mut s = String::new();
    push_chars(&mut s, cs, 0, cs.len());
    assert(cs@.subrange(0, cs@.len() as int) =~= cs@);
    s
}

/// A string holding the characters `cs[from..to]`.
pub fn string_of_range(cs: &[char], from: usize, to: usize) -> (r: String)
    requires
        from <= to <= cs@.len(),
    ensures
        r@ == cs@.subrange(from as int, to as int),
{
    let mut s = String::new();
    push_chars(&mut s, cs, from, to);
    s
}

/// Appends a whole string to another.
pub fn push_str(s: &mut String, t: &str)
    ensures
        final(s)@ == old(s)@ + t@,
{
    let cs = chars_of(t);
    push_chars(s, cs.as_slice(), 0, cs.len());
    assert(cs@.subrange(0, cs@.len() as int) =~= t@);
}

/// The concatenation of two strings.
pub fn concat(a: &str, b: &str) -> (r: String)
    ensures
        r@ == a@ + b@,
{
    let mut s = a.to_owned();
    push_str(&mut s, b);
    s
}

/// Whether two strings hold the same characters.
pub fn str_eq(a: &str, b: &str) -> (r: bool)
    ensures
        r == (a@ == b@),
{
    let x = a.to_owned();
    let y = b.to_owned();
    x == y
}

/// Whether `t` ends with `suffix`.
pub open spec fn ends_with(t: Seq<char>, suffix: Seq<char>) -> bool {
    suffix.len() <= t.len() && t.subrange(t.len() - suffix.len(), t.len() as int) == suffix
}

/// `str::ends_with` for a string pattern.
pub fn ends_with_exec(t: &[char], suffix: &[char]) -> (r: bool)
    ensures
        r == ends_with(t@, suffix@),
{
    if suffix.len() > t.len() {
        return false;
    }
    let off = t.len() - suffix.len();
    let mut i: usize = 0;
    while i < suffix.len()
        invariant
            off + suffix@.len() == t@.len(),
            t@.len() <= usize::MAX,
            i <= suffix@.len(),
            forall|j: int| 0 <= j < i ==> t@[off + j] == suffix@[j],
        decreases suffix.len() - i,
    {
        if t[off + i] != suffix[i] {
            assert(t@.subrange(off as int, t@.len() as int)[i as int] != suffix@[i as int]);
            return false;
        }
        i = i + 1;
    }
    assert(t@.subrange(off as int, t@.len() as int) =~= suffix@);
    true
}

/// `t` with every trailing copy of a nonempty `suffix` removed
/// (`str::trim_end_matches` for a string pattern).
pub open spec fn trim_end_matches(t: Seq<char>, suffix: Seq<char>) -> Seq<char>
    decreases t.len(),
{
    if suffix.len() > 0 && ends_with(t, suffix) {
        trim_end_matches(t.subrange(0, t.len() - suffix.len()), suffix)
    } else {
        t
    }
}

/// Length of `t` once trailing copies of `suffix` are removed.
pub fn trim_end_matches_len(t: &[char], suffix: &[char]) -> (n: usize)
    ensures
        n <= t@.len(),
        t@.subrange(0, n as int) == trim_end_matches(t@, suffix@),
{
    let mut n = t.len();
    if suffix.len() == 0 {
        assert(t@.subrange(0, n as int) =~= t@);
        return n;
    }
    assert(t@.subrange(0, n as int) =~= t@);
    while n >= suffix.len()
        invariant
            suffix@.len() > 0,
            n <= t@.len(),
            t@.len() <= usize::MAX,
            trim_end_matches(t@.subrange(0, n as int), suffix@) == trim_end_matches(t@, suffix@),
        decreases n,
    {
        let off = n - suffix.len();
        let mut i: usize = 0;
        let mut all = true;
        while i < suffix.len()
            invariant
                off + suffix@.len() == n,
                n <= t@.len(),
                t@.len() <= usize::MAX,
                i <= suffix@.len(),
                all ==> forall|j: int| 0 <= j < i ==> t@[off + j] == suffix@[j],
                !all ==> !ends_with(t@.subrange(0, n as int), suffix@),
            decreases suffix.len() - i,
        {
            if t[off + i] != suffix[i] {
                all = false;
                assert(t@.subrange(0, n as int).subrange(off as int, n as int)[i as int] != suffix@[i as int]);
            }
            i = i + 1;
        }
        if !all {
            return n;
        }
        assert(t@.subrange(0, n as int).subrange(off as int, n as int) =~= suffix@);
        assert(t@.subrange(0, n as int).subrange(0, off as int) =~= t@.subrange(0, off as int));
        n = off;
    }
    proof {
        assert(!ends_with(t@.subrange(0, n as int), suffix@));
    }
    n
}

// ---------------------------------------------------------------------------
// Splitting on white space
// ---------------------------------------------------------------------------

/// State of a left-to-right scan that cuts a text into maximal runs of
/// non-white-space characters: the words completed so far and the word
/// being read.
pub open spec fn split_ws_state(s: Seq<char>) -> (Seq<Seq<char>>, Seq<char>)
    decreases s.len(),
{
    if s.len() == 0 {
        (Seq::empty(), Seq::empty())
    } else {
        let (done, cur) = split_ws_state(s.drop_last());
        let c = s.last();
        if white_space(c) {
            if cur.len() > 0 {
                (done.push(cur), Seq::empty())
            } else {
                (done, cur)
            }
        } else {
            (done, cur.push(c))
        }
    }
}

/// The words of a text: its maximal runs of non-white-space characters, in
/// order (`str::split_whitespace`).
pub open spec fn split_ws(s: Seq<char>) -> Seq<Seq<char>> {
    let (done, cur) = split_ws_state(s);
    if cur.len() > 0 {
        done.push(cur)
    } else {
        done
    }
}

/// A word holds no white space.
pub open spec fn no_ws(w: Seq<char>) -> bool {
    forall|j: int| 0 <= j < w.len() ==> !white_space(#[trigger] w[j])
}

/// Every word is nonempty and holds no white space.
pub open spec fn all_words(ws: Seq<Seq<char>>) -> bool {
    forall|i: int| 0 <= i < ws.len() ==> (#[trigger] ws[i]).len() > 0 && no_ws(ws[i])
}

proof fn lemma_all_words_push(ws: Seq<Seq<char>>, w: Seq<char>)
    requires
        all_words(ws),
        w.len() > 0,
        no_ws(w),
    ensures
        all_words(ws.push(w)),
{
    assert forall|i: int| 0 <= i < ws.push(w).len() implies (#[trigger] ws.push(w)[i]).len() > 0 && no_ws(ws.push(w)[i]) by {
        if i < ws.len() {
            assert(ws.push(w)[i] == ws[i]);
        }
    }
}

proof fn lemma_no_ws_push(w: Seq<char>, c: char)
    requires
        no_ws(w),
        !white_space(c),
    ensures
        no_ws(w.push(c)),
{
    assert forall|j: int| 0 <= j < w.push(c).len() implies !white_space(#[trigger] w.push(c)[j]) by {
        if j < w.len() {
            assert(w.push(c)[j] == w[j]);
        }
    }
}

/// Every word that the scan produces is nonempty and free of white space.
pub proof fn lemma_split_ws_state_words(s: Seq<char>)
    ensures
        all_words(split_ws_state(s).0),
        no_ws(split_ws_state(s).1),
    decreases s.len(),
{
    if s.len() > 0 {
        lemma_split_ws_state_words(s.drop_last());
        let (done, cur) = split_ws_state(s.drop_last());
        let c = s.last();
        if white_space(c) {
            if cur.len() > 0 {
                lemma_all_words_push(done, cur);
            }
        } else {
            lemma_no_ws_push(cur, c);
        }
    }
}

/// The words of a text are nonempty and hold no white space.
pub proof fn lemma_split_ws_words(s: Seq<char>)
    ensures
        all_words(split_ws(s)),
{
    lemma_split_ws_state_words(s);
    let (done, cur) = split_ws_state(s);
    if cur.len() > 0 {
        lemma_all_words_push(done, cur);
    }
}

/// A text has no more words than characters.
pub proof fn lemma_split_ws_len(s: Seq<char>)
    ensures
        split_ws(s).len() <= s.len(),
{
    lemma_split_ws_state_len(s);
}

proof fn lemma_split_ws_state_len(s: Seq<char>)
    ensures
        split_ws_state(s).0.len() + split_ws_state(s).1.len() <= s.len(),
    decreases s.len(),
{
    if s.len() > 0 {
        lemma_split_ws_state_len(s.drop_last());
    }
}

/// Cuts a text into its words (`str::split_whitespace`).
pub fn split_whitespace(s: &str) -> (r: Vec<String>)
    ensures
        r@.map_values(|w: String| w@) == split_ws(s@),
{
    let cs = chars_of(s);
    split_whitespace_chars(cs.as_slice())
}

/// Cuts a character sequence into its words.
pub fn split_whitespace_chars(cs: &[char]) -> (r: Vec<String>)
    ensures
        r@.map_values(|w: String| w@) == split_ws(cs@),
{
    let mut done: Vec<String> = Vec::new();
    let mut start: usize = 0;
    let mut i: usize = 0;
    while i < cs.len()
        invariant
            start <= i <= cs@.len(),
            done@.map_values(|w: String| w@) == split_ws_state(cs@.take(i as int)).0,
            cs@.subrange(start as int, i as int) == split_ws_state(cs@.take(i as int)).1,
        decreases cs.len() - i,
    {
        let c = cs[i];
        assert(cs@.take(i + 1).drop_last() =~= cs@.take(i as int));
        assert(cs@.take(i + 1).last() == c);
        if char_is_whitespace(c) {
            if start < i {
                let w = string_of_range(cs, start, i);
                proof {
                    assert(cs@.subrange(start as int, i as int) =~= cs@.subrange(start as int, i as int));
                }
                done.push(w);
                assert(done@.map_values(|w: String| w@) =~= split_ws_state(cs@.take(i + 1)).0);
            }
            start = i + 1;
            assert(cs@.subrange(start as int, (i + 1) as int) =~= Seq::<char>::empty());
        } else {
            assert(cs@.subrange(start as int, (i + 1) as int) =~= cs@.subrange(start as int, i as int).push(c));
        }
        i = i + 1;
    }
    assert(cs@.take(cs@.len() as int) =~= cs@);
    if start < cs.len() {
        let w = string_of_range(cs, start, cs.len());
        done.push(w);
        assert(done@.map_values(|w: String| w@) =~= split_ws(cs@));
    } else {
        assert(done@.map_values(|w: String| w@) =~= split_ws(cs@));
    }
    done
}

// ---------------------------------------------------------------------------
// Trimming white space
// ---------------------------------------------------------------------------

/// Number of leading white-space characters.
pub open spec fn lead_ws(s: Seq<char>) -> nat
    decreases s.len(),
{
    if s.len() > 0 && white_space(s[0]) {
        1 + lead_ws(s.drop_first())
    } else {
        0
    }
}

/// Number of trailing white-space characters.
pub open spec fn trail_ws(s: Seq<char>) -> nat
    decreases s.len(),
{
    if s.len() > 0 && white_space(s.last()) {
        1 + trail_ws(s.drop_last())
    } else {
        0
    }
}

/// `s` without its trailing white space (`str::trim_end`).
pub open spec fn trim_end_ws(s: Seq<char>) -> Seq<char> {
    s.subrange(0, s.len() - trail_ws(s))
}

/// `s` without leading and trailing white space (`str::trim`).
pub open spec fn trim_ws(s: Seq<char>) -> Seq<char> {
    let e = trim_end_ws(s);
    e.subrange(lead_ws(e) as int, e.len() as int)
}

proof fn lemma_lead_ws_bound(s: Seq<char>)
    ensures
        lead_ws(s) <= s.len(),
        forall|j: int| 0 <= j < lead_ws(s) ==> white_space(#[trigger] s[j]),
        lead_ws(s) < s.len() ==> !white_space(s[lead_ws(s) as int]),
    decreases s.len(),
{
    if s.len() > 0 && white_space(s[0]) {
        lemma_lead_ws_bound(s.drop_first());
        assert forall|j: int| 0 <= j < lead_ws(s) implies white_space(#[trigger] s[j]) by {
            if j > 0 {
                assert(s[j] == s.drop_first()[j - 1]);
            }
        }
    }
}

proof fn lemma_trail_ws_bound(s: Seq<char>)
    ensures
        trail_ws(s) <= s.len(),
        forall|j: int| s.len() - trail_ws(s) <= j < s.len() ==> white_space(#[trigger] s[j]),
        trail_ws(s) < s.len() ==> !white_space(s[s.len() - trail_ws(s) - 1]),
    decreases s.len(),
{
    if s.len() > 0 && white_space(s.last()) {
        lemma_trail_ws_bound(s.drop_last());
        assert forall|j: int| s.len() - trail_ws(s) <= j < s.len() implies white_space(#[trigger] s[j]) by {
            if j < s.len() - 1 {
                assert(s[j] == s.drop_last()[j]);
            }
        }
    }
}

/// Trimming a text made of white space, then a part that is empty or starts
/// and ends with other characters, then white space, gives that part.
#[verifier::spinoff_prover]
pub proof fn lemma_trim_ws_frame(a: Seq<char>, m: Seq<char>, b: Seq<char>)
    requires
        forall|j: int| 0 <= j < a.len() ==> white_space(#[trigger] a[j]),
        forall|j: int| 0 <= j < b.len() ==> white_space(#[trigger] b[j]),
        m.len() > 0 ==> !white_space(m[0]) && !white_space(m.last()),
    ensures
        trim_ws(a + m + b) == m,
{
    let s = a + m + b;
    lemma_trail_ws_bound(s);
    let t = trail_ws(s);
    if m.len() == 0 {
        if t < s.len() {
            let k = s.len() - t - 1;
            if k < a.len() {
                assert(s[k] == a[k]);
            } else {
                assert(s[k] == b[k - a.len()]);
            }
        }
        assert(trim_end_ws(s).len() == 0);
        assert(trim_ws(s) =~= m);
    } else {
        if t > b.len() {
            assert(s[s.len() - b.len() - 1] == m.last());
        }
        if t < b.len() {
            assert(s[s.len() - t - 1] == b[b.len() - t - 1]);
        }
        assert(t == b.len());
        let e = trim_end_ws(s);
        assert(e =~= a + m);
        lemma_lead_ws_bound(e);
        let l = lead_ws(e);
        if l > a.len() {
            assert(e[a.len() as int] == m[0]);
        }
        if l < a.len() {
            assert(e[l as int] == a[l as int]);
        }
        assert(l == a.len());
        assert(e.subrange(l as int, e.len() as int) =~= m);
    }
}

/// Splitting a text that follows one ending between words (no word being
/// read) continues from the words of the first.
pub proof fn lemma_split_ws_state_concat(x: Seq<char>, b: Seq<char>)
    requires
        split_ws_state(x).1.len() == 0,
    ensures
        split_ws_state(x + b) == (split_ws_state(x).0 + split_ws_state(b).0, split_ws_state(b).1),
    decreases b.len(),
{
    if b.len() == 0 {
        assert(x + b =~= x);
        assert(split_ws_state(x).0 + Seq::<Seq<char>>::empty() =~= split_ws_state(x).0);
    } else {
        let bd = b.drop_last();
        lemma_split_ws_state_concat(x, bd);
        assert((x + b).drop_last() =~= x + bd);
        assert((x + b).last() == b.last());
        let (bt, bc) = split_ws_state(bd);
        assert((split_ws_state(x).0 + bt).push(bc) =~= split_ws_state(x).0 + bt.push(bc));
    }
}

/// A word with no white space is read whole, with no word completed.
pub proof fn lemma_split_ws_state_word(w: Seq<char>)
    requires
        no_ws(w),
    ensures
        split_ws_state(w) == (Seq::<Seq<char>>::empty(), w),
    decreases w.len(),
{
    if w.len() > 0 {
        assert(no_ws(w.drop_last()) && !white_space(w[w.len() - 1])) by {
            assert forall|j: int| 0 <= j < w.drop_last().len() implies !white_space(#[trigger] w.drop_last()[j]) by {
                assert(w.drop_last()[j] == w[j]);
            }
        }
        lemma_split_ws_state_word(w.drop_last());
        assert(w.drop_last().push(w.last()) =~= w);
    } else {
        assert(w =~= Seq::<char>::empty());
    }
}

/// Number of leading white-space characters of `cs[..end]`.
fn count_lead_ws(cs: &[char], end: usize) -> (n: usize)
    requires
        end <= cs@.len(),
    ensures
        n == lead_ws(cs@.subrange(0, end as int)),
{
    let mut n: usize = 0;
    while n < end && char_is_whitespace(cs[n])
        invariant
            n <= end <= cs@.len(),
            lead_ws(cs@.subrange(0, end as int)) == n + lead_ws(cs@.subrange(n as int, end as int)),
        decreases end - n,
    {
        assert(cs@.subrange(n as int, end as int).drop_first() =~= cs@.subrange(n + 1, end as int));
        n = n + 1;
    }
    n
}

/// Number of trailing white-space characters of `cs`.
fn count_trail_ws(cs: &[char]) -> (n: usize)
    ensures
        n == trail_ws(cs@),
{
    let mut k: usize = cs.len();
    assert(cs@.subrange(0, k as int) =~= cs@);
    while k > 0 && char_is_whitespace(cs[k - 1])
        invariant
            k <= cs@.len(),
            trail_ws(cs@) == (cs@.len() - k) + trail_ws(cs@.subrange(0, k as int)),
        decreases k,
    {
        assert(cs@.subrange(0, k as int).drop_last() =~= cs@.subrange(0, k - 1));
        k = k - 1;
    }
    (cs.len() - k) as usize
}

/// `s` without leading and trailing white space (`str::trim`).
pub fn trim(s: &str) -> (r: String)
    ensures
        r@ == trim_ws(s@),
{
    let cs = chars_of(s);
    let t = count_trail_ws(cs.as_slice());
    proof {
        lemma_trail_ws_bound(cs@);
    }
    let end = cs.len() - t;
    let l = count_lead_ws(cs.as_slice(), end);
    proof {
        lemma_lead_ws_bound(cs@.subrange(0, end as int));
    }
    let r = string_of_range(cs.as_slice(), l, end);
    assert(r@ =~= trim_ws(s@));
    r
}

/// `s` without trailing white space (`str::trim_end`).
pub fn trim_end(s: &str) -> (r: String)
    ensures
        r@ == trim_end_ws(s@),
{
    let cs = chars_of(s);
    let t = count_trail_ws(cs.as_slice());
    proof {
        lemma_trail_ws_bound(cs@);
    }
    let end = cs.len() - t;
    let r = string_of_range(cs.as_slice(), 0, end);
    assert(r@ =~= trim_end_ws(s@));
    r
}

} // verus!
