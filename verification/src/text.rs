//! Text primitives: whitespace trimming, paragraph splitting and word tokenization,
//! each stated as a spec function over `Seq<char>` and implemented by a verified scan.

use vstd::prelude::*;

verus! {

// ---------------------------------------------------------------------------
// Character classes and case mapping (std, behind trusted items)
// ---------------------------------------------------------------------------

/// Whether `c` has the Unicode `White_Space` property (the code points listed in the
/// Unicode Character Database's PropList.txt), which `char::is_whitespace` decides.
pub open spec fn char_is_whitespace(c: char) -> bool {
    let u = c as int;
    ||| 0x09 <= u <= 0x0D
    ||| u == 0x20
    ||| u == 0x85
    ||| u == 0xA0
    ||| u == 0x1680
    ||| 0x2000 <= u <= 0x200A
    ||| u == 0x2028
    ||| u == 0x2029
    ||| u == 0x202F
    ||| u == 0x205F
    ||| u == 0x3000
}

/// Whether `c` is alphabetic or numeric in the Unicode sense, as `char::is_alphanumeric` decides.
pub uninterp spec fn char_is_alphanumeric(c: char) -> bool;

/// The lowercase form of a whole string, as `str::to_lowercase` computes it.
pub uninterp spec fn str_lowercase(s: Seq<char>) -> Seq<char>;

/// Calls `char::is_whitespace`. The contract claims that the answer is whether `c` is
/// one of the `White_Space` code points that `char_is_whitespace` lists.
#[verifier::external_body]
fn is_whitespace(c: char) -> (r: bool)
    ensures
        r == char_is_whitespace(c),
{
    c.is_whitespace()
}

/// Calls `char::is_alphanumeric`. The contract claims only that the answer is the
/// named class `char_is_alphanumeric(c)`, a function of `c` alone.
#[verifier::external_body]
fn is_alphanumeric(c: char) -> (r: bool)
    ensures
        r == char_is_alphanumeric(c),
{
    c.is_alphanumeric()
}

/// Calls `str::to_lowercase`. The contract claims that the characters of the result are
/// `str_lowercase` of the characters of `s`, and that, as every character lowercases to
/// one or more characters, the result is empty for an empty input and never shorter than
/// the input. The Unicode case tables behind the name (including the context rule for
/// final sigma) are not stated.
#[verifier::external_body]
fn to_lowercase(s: &str) -> (r: String)
    ensures
        r@ == str_lowercase(s@),
        s@.len() == 0 ==> r@.len() == 0,
        s@.len() <= r@.len(),
{
    s.to_lowercase()
}

/// `String::push` appends one character; its documentation says exactly this.
pub assume_specification[ String::push ](s: &mut String, ch: char)
    ensures
        final(s)@ == old(s)@.push(ch),
;

// ---------------------------------------------------------------------------
// Specifications
// ---------------------------------------------------------------------------

/// The character views of a sequence of strings.
pub open spec fn views(v: Seq<String>) -> Seq<Seq<char>> {
    v.map_values(|s: String| s@)
}

/// `s` without its leading whitespace.
pub open spec fn trim_start(s: Seq<char>) -> Seq<char>
    decreases s.len(),
{
    if s.len() > 0 && char_is_whitespace(s[0]) {
        trim_start(s.drop_first())
    } else {
        s
    }
}

/// `s` without its trailing whitespace.
pub open spec fn trim_end(s: Seq<char>) -> Seq<char>
    decreases s.len(),
{
    if s.len() > 0 && char_is_whitespace(s.last()) {
        trim_end(s.drop_last())
    } else {
        s
    }
}

/// `s` without leading and trailing whitespace (`str::trim`).
pub open spec fn trim(s: Seq<char>) -> Seq<char> {
    trim_end(trim_start(s))
}

/// Left-to-right scan of `s` for the separator "\n\n", matches taken leftmost and
/// without overlap: the pieces closed so far, and the piece still open.
pub open spec fn paragraph_scan(s: Seq<char>) -> (Seq<Seq<char>>, Seq<char>)
    decreases s.len(),
{
    if s.len() == 0 {
        (seq![], seq![])
    } else {
        let (done, cur) = paragraph_scan(s.drop_last());
        let c = s.last();
        if c == '\n' && cur.len() > 0 && cur.last() == '\n' {
            (done.push(cur.drop_last()), seq![])
        } else {
            (done, cur.push(c))
        }
    }
}

/// The pieces of `s` between occurrences of "\n\n" (`str::split("\n\n")`).
pub open spec fn split_paragraphs(s: Seq<char>) -> Seq<Seq<char>> {
    let (done, cur) = paragraph_scan(s);
    done.push(cur)
}

/// Each piece trimmed, the empty ones dropped, in order.
pub open spec fn trimmed_nonempty(pieces: Seq<Seq<char>>) -> Seq<Seq<char>>
    decreases pieces.len(),
{
    if pieces.len() == 0 {
        seq![]
    } else {
        let prev = trimmed_nonempty(pieces.drop_last());
        let t = trim(pieces.last());
        if t.len() > 0 {
            prev.push(t)
        } else {
            prev
        }
    }
}

/// The paragraph chunks of a document: split on "\n\n", trimmed, empty ones dropped.
pub open spec fn paragraph_chunks(s: Seq<char>) -> Seq<Seq<char>> {
    trimmed_nonempty(split_paragraphs(s))
}

/// Left-to-right scan of `s` for whitespace-separated words: the words closed so far,
/// and the run of non-whitespace characters still open.
pub open spec fn word_scan(s: Seq<char>) -> (Seq<Seq<char>>, Seq<char>)
    decreases s.len(),
{
    if s.len() == 0 {
        (seq![], seq![])
    } else {
        let (done, cur) = word_scan(s.drop_last());
        let c = s.last();
        if char_is_whitespace(c) {
            if cur.len() > 0 {
                (done.push(cur), seq![])
            } else {
                (done, cur)
            }
        } else {
            (done, cur.push(c))
        }
    }
}

/// The maximal runs of non-whitespace characters of `s` (`str::split_whitespace`).
pub open spec fn split_whitespace(s: Seq<char>) -> Seq<Seq<char>> {
    let (done, cur) = word_scan(s);
    if cur.len() > 0 {
        done.push(cur)
    } else {
        done
    }
}

/// The alphanumeric characters of `w`, in order.
pub open spec fn alnum_only(w: Seq<char>) -> Seq<char>
    decreases w.len(),
{
    if w.len() == 0 {
        seq![]
    } else {
        let prev = alnum_only(w.drop_last());
        if char_is_alphanumeric(w.last()) {
            prev.push(w.last())
        } else {
            prev
        }
    }
}

/// A word reduced to a search term: punctuation removed, then lowercased (a word without
/// alphanumeric characters gives the empty term).
pub open spec fn normalize(w: Seq<char>) -> Seq<char> {
    if alnum_only(w).len() == 0 {
        seq![]
    } else {
        str_lowercase(alnum_only(w))
    }
}

/// The normalized words that are not empty, in order.
pub open spec fn nonempty_terms(words: Seq<Seq<char>>) -> Seq<Seq<char>>
    decreases words.len(),
{
    if words.len() == 0 {
        seq![]
    } else {
        let prev = nonempty_terms(words.drop_last());
        let t = normalize(words.last());
        if t.len() > 0 {
            prev.push(t)
        } else {
            prev
        }
    }
}

/// The search terms of a text: its whitespace-separated words, normalized, empty ones dropped.
pub open spec fn tokenize(s: Seq<char>) -> Seq<Seq<char>> {
    nonempty_terms(split_whitespace(s))
}

// ---------------------------------------------------------------------------
// Lemmas
// ---------------------------------------------------------------------------

/// Trimming the start never lengthens.
proof fn lemma_trim_start_len(s: Seq<char>)
    ensures
        trim_start(s).len() <= s.len(),
    decreases s.len(),
{
    if s.len() > 0 {
        lemma_trim_start_len(s.drop_first());
    }
}

/// Trimming the end never lengthens.
proof fn lemma_trim_end_len(s: Seq<char>)
    ensures
        trim_end(s).len() <= s.len(),
    decreases s.len(),
{
    if s.len() > 0 {
        lemma_trim_end_len(s.drop_last());
    }
}

/// Trimming never lengthens.
pub proof fn lemma_trim_len(s: Seq<char>)
    ensures
        trim(s).len() <= s.len(),
{
    lemma_trim_start_len(s);
    lemma_trim_end_len(trim_start(s));
}

/// The open piece and the chunks of the closed pieces never outnumber the characters scanned.
proof fn lemma_paragraph_scan_len(s: Seq<char>)
    ensures
        trimmed_nonempty(paragraph_scan(s).0).len() + paragraph_scan(s).1.len() <= s.len(),
    decreases s.len(),
{
    if s.len() > 0 {
        let (done, cur) = paragraph_scan(s.drop_last());
        lemma_paragraph_scan_len(s.drop_last());
        let c = s.last();
        if c == '\n' && cur.len() > 0 && cur.last() == '\n' {
            let done2 = done.push(cur.drop_last());
            assert(done2.drop_last() =~= done);
            lemma_trim_len(cur.drop_last());
        }
    }
}

/// A document has no more chunks than characters.
pub proof fn lemma_paragraph_chunks_len(s: Seq<char>)
    ensures
        paragraph_chunks(s).len() <= s.len(),
{
    let (done, cur) = paragraph_scan(s);
    lemma_paragraph_scan_len(s);
    lemma_trim_len(cur);
    assert(done.push(cur).drop_last() =~= done);
}

// ---------------------------------------------------------------------------
// Implementations
// ---------------------------------------------------------------------------

/// The characters of `s`.
pub fn chars_of(s: &str) -> (r: Vec<char>)
    ensures
        r@ == s@,
{
    let mut r: Vec<char> = Vec::new();
    for c in it: s.chars()
        invariant
            r@ == it.seq().take(it.index() as int),
            it.seq() == s@,
    {
        r.push(c);
    }
    r
}

/// The string made of `v[lo..hi]`.
pub fn string_of(v: &Vec<char>, lo: usize, hi: usize) -> (r: String)
    requires
        lo <= hi <= v.len(),
    ensures
        r@ == v@.subrange(lo as int, hi as int),
{
    let mut r = String::new();
    let mut i = lo;
    while i < hi
        invariant
            lo <= i <= hi <= v.len(),
            r@ == v@.subrange(lo as int, i as int),
        decreases hi - i,
    {
        r.push(v[i]);
        i += 1;
        assert(r@ =~= v@.subrange(lo as int, i as int));
    }
    r
}

/// The bounds of `trim(v[lo..hi])` within `v`.
fn trim_bounds(v: &Vec<char>, lo: usize, hi: usize) -> (r: (usize, usize))
    requires
        lo <= hi <= v.len(),
    ensures
        lo <= r.0 <= r.1 <= hi,
        v@.subrange(r.0 as int, r.1 as int) == trim(v@.subrange(lo as int, hi as int)),
{
    let mut a = lo;
    while a < hi && is_whitespace(v[a])
        invariant
            lo <= a <= hi <= v.len(),
            trim_start(v@.subrange(lo as int, hi as int)) == trim_start(v@.subrange(a as int, hi as int)),
        decreases hi - a,
    {
        assert(v@.subrange(a as int, hi as int).drop_first() =~= v@.subrange(a + 1, hi as int));
        a += 1;
    }
    assert(trim_start(v@.subrange(a as int, hi as int)) == v@.subrange(a as int, hi as int));
    let mut b = hi;
    while b > a && is_whitespace(v[b - 1])
        invariant
            lo <= a <= b <= hi <= v.len(),
            trim(v@.subrange(lo as int, hi as int)) == trim_end(v@.subrange(a as int, b as int)),
        decreases b - a,
    {
        assert(v@.subrange(a as int, b as int).drop_last() =~= v@.subrange(a as int, b - 1));
        b -= 1;
    }
    (a, b)
}

/// The paragraph chunks of `content`: `paragraph_chunks(content@)`.
pub fn split_paragraph_chunks(content: &str) -> (r: Vec<String>)
    ensures
        views(r@) == paragraph_chunks(content@),
{
    let v = chars_of(content);
    let n = v.len();
    let mut out: Vec<String> = Vec::new();
    let ghost mut done: Seq<Seq<char>> = seq![];
    let mut start: usize = 0;
    let mut i: usize = 0;
    assert(v@.take(0) =~= seq![]);
    while i < n
        invariant
            n == v.len(),
            start <= i <= n,
            paragraph_scan(v@.take(i as int)) == (done, v@.subrange(start as int, i as int)),
            views(out@) == trimmed_nonempty(done),
        decreases n - i,
    {
        assert(v@.take(i + 1).drop_last() =~= v@.take(i as int));
        let c = v[i];
        if c == '\n' && i > start && v[i - 1] == '\n' {
            let ghost piece = v@.subrange(start as int, i - 1);
            assert(v@.subrange(start as int, i as int).drop_last() =~= piece);
            let ghost old_out = out@;
            let (a, b) = trim_bounds(&v, start, i - 1);
            if a < b {
                let s = string_of(&v, a, b);
                out.push(s);
                assert(views(out@) =~= views(old_out).push(s@));
            } else {
                assert(out@ == old_out);
            }
            proof {
                let old_done = done;
                done = done.push(piece);
                assert(done.drop_last() =~= old_done);
                assert(views(out@) =~= trimmed_nonempty(done));
            }
            start = i + 1;
            assert(v@.subrange(start as int, i + 1) =~= seq![]);
        } else {
            assert(v@.subrange(start as int, i + 1) =~= v@.subrange(start as int, i as int).push(c));
        }
        i += 1;
    }
    assert(v@.take(n as int) =~= v@);
    let ghost last = v@.subrange(start as int, n as int);
    let ghost old_out = out@;
    let (a, b) = trim_bounds(&v, start, n);
    if a < b {
        let s = string_of(&v, a, b);
        out.push(s);
        assert(views(out@) =~= views(old_out).push(s@));
    }
    proof {
        let pieces = done.push(last);
        assert(pieces.drop_last() =~= done);
        assert(views(out@) =~= trimmed_nonempty(pieces));
    }
    out
}

/// The search terms of `text`: `tokenize(text@)`.
pub fn tokenize_str(text: &str) -> (r: Vec<String>)
    ensures
        views(r@) == tokenize(text@),
{
    let v = chars_of(text);
    let n = v.len();
    let mut out: Vec<String> = Vec::new();
    let ghost mut done: Seq<Seq<char>> = seq![];
    let mut start: usize = 0;
    let mut i: usize = 0;
    assert(v@.take(0) =~= seq![]);
    while i < n
        invariant
            n == v.len(),
            start <= i <= n,
            word_scan(v@.take(i as int)) == (done, v@.subrange(start as int, i as int)),
            views(out@) == nonempty_terms(done),
        decreases n - i,
    {
        assert(v@.take(i + 1).drop_last() =~= v@.take(i as int));
        let c = v[i];
        if is_whitespace(c) {
            if start < i {
                let ghost word = v@.subrange(start as int, i as int);
                let ghost old_out = out@;
                let t = normalize_word(&v, start, i);
                if !t.as_str().is_empty() {
                    out.push(t);
                    assert(views(out@) =~= views(old_out).push(t@));
                }
                proof {
                    let old_done = done;
                    done = done.push(word);
                    assert(done.drop_last() =~= old_done);
                    assert(views(out@) =~= nonempty_terms(done));
                }
            }
            start = i + 1;
            assert(v@.subrange(start as int, i + 1) =~= seq![]);
        } else {
            assert(v@.subrange(start as int, i + 1) =~= v@.subrange(start as int, i as int).push(c));
        }
        i += 1;
    }
    assert(v@.take(n as int) =~= v@);
    if start < n {
        let ghost word = v@.subrange(start as int, n as int);
        let ghost old_out = out@;
        let t = normalize_word(&v, start, n);
        if !t.as_str().is_empty() {
            out.push(t);
            assert(views(out@) =~= views(old_out).push(t@));
        }
        proof {
            let words = done.push(word);
            assert(words.drop_last() =~= done);
            assert(views(out@) =~= nonempty_terms(words));
        }
    }
    out
}

/// `normalize(v[lo..hi])`: the alphanumeric characters of the word, lowercased.
fn normalize_word(v: &Vec<char>, lo: usize, hi: usize) -> (r: String)
    requires
        lo <= hi <= v.len(),
    ensures
        r@ == normalize(v@.subrange(lo as int, hi as int)),
{
    let mut kept = String::new();
    let mut i = lo;
    while i < hi
        invariant
            lo <= i <= hi <= v.len(),
            kept@ == alnum_only(v@.subrange(lo as int, i as int)),
        decreases hi - i,
    {
        assert(v@.subrange(lo as int, i + 1).drop_last() =~= v@.subrange(lo as int, i as int));
        if is_alphanumeric(v[i]) {
            kept.push(v[i]);
        }
        i += 1;
    }
    let r = to_lowercase(kept.as_str());
    proof {
        if kept@.len() == 0 {
            assert(r@ =~= seq![]);
        }
    }
    r
}

} // verus!
