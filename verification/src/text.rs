//! Character-level text processing: lowercasing, tokenization, and
//! lexicographic comparison of character sequences.
//!
//! The tokenizer turns text into lowercase alphanumeric runs, splitting on
//! every non-alphanumeric character and discarding runs of one character.
//! Unicode case mapping and the Unicode alphanumeric classification are the
//! only facts taken on trust; everything built on them is verified.

use vstd::prelude::*;

verus! {

/// What `char::to_lowercase` yields for one character: a function of the
/// character alone, left uninterpreted because the Unicode case tables are
/// not restated here.
pub uninterp spec fn lower_chars_of(c: char) -> Seq<char>;

/// Whether `char::is_alphanumeric` holds of one character: a function of the
/// character alone, left uninterpreted because the Unicode tables are not
/// restated here.
pub uninterp spec fn is_word_char(c: char) -> bool;

/// Relies on char::to_lowercase: the lowercase mapping of a character
/// depends on that character alone.
#[verifier::external_body]
fn lower_char(c: char) -> (r: Vec<char>)
    ensures
        r@ == lower_chars_of(c),
{
    c.to_lowercase().collect()
}

/// Relies on char::is_alphanumeric: the classification depends on the
/// character alone.
#[verifier::external_body]
fn word_char(c: char) -> (r: bool)
    ensures
        r == is_word_char(c),
{
    c.is_alphanumeric()
}

/// Relies on String::push: it appends exactly the given character.
#[verifier::external_body]
fn push_char(s: &mut String, c: char)
    ensures
        final(s)@ == old(s)@.push(c),
{
    s.push(c)
}

/// The lowercase expansion of a character sequence: each character is
/// replaced by its lowercase mapping, in order.
pub open spec fn lower_seq(s: Seq<char>) -> Seq<char>
    decreases s.len(),
{
    if s.len() == 0 {
        Seq::empty()
    } else {
        lower_seq(s.drop_last()) + lower_chars_of(s.last())
    }
}

/// A finished run is kept as a token only when it has at least two characters.
pub open spec fn emit_run(cur: Seq<char>) -> Seq<Seq<char>> {
    if cur.len() >= 2 {
        seq![cur]
    } else {
        Seq::empty()
    }
}

/// Scans `s` with `cur` holding the alphanumeric run read so far, and returns
/// the tokens of `cur` followed by `s`.
pub open spec fn scan_tokens(s: Seq<char>, cur: Seq<char>) -> Seq<Seq<char>>
    decreases s.len(),
{
    if s.len() == 0 {
        emit_run(cur)
    } else if is_word_char(s[0]) {
        scan_tokens(s.drop_first(), cur.push(s[0]))
    } else {
        emit_run(cur) + scan_tokens(s.drop_first(), Seq::empty())
    }
}

/// The tokens of an already lowercased character sequence: maximal
/// alphanumeric runs of length at least two, in order of appearance.
pub open spec fn tokens_of(s: Seq<char>) -> Seq<Seq<char>> {
    scan_tokens(s, Seq::empty())
}

/// The tokens of raw text: the text is lowercased, then split into
/// alphanumeric runs.
pub open spec fn text_tokens(s: Seq<char>) -> Seq<Seq<char>> {
    tokens_of(lower_seq(s))
}

/// Lowercases text into a vector of characters.
pub fn lower_text(s: &str) -> (r: Vec<char>)
    ensures
        r@ == lower_seq(s@),
{
    let n = s.unicode_len();
    let mut r: Vec<char> = Vec::new();
    let mut i: usize = 0;
    while i < n
        invariant
            n == s@.len(),
            i <= n,
            r@ == lower_seq(s@.take(i as int)),
        decreases n - i,
    {
        let c = s.get_char(i);
        let mut low = lower_char(c);
        r.append(&mut low);
        proof {
            assert(s@.take(i + 1).drop_last() =~= s@.take(i as int));
            assert(s@.take(i + 1).last() == s@[i as int]);
        }
        i = i + 1;
    }
    proof {
        assert(s@.take(n as int) =~= s@);
    }
    r
}

/// Splits an already lowercased character vector into its tokens.
fn scan_runs(low: &Vec<char>) -> (r: Vec<Vec<char>>)
    ensures
        r.deep_view() == tokens_of(low@),
{
    let mut out: Vec<Vec<char>> = Vec::new();
    let mut cur: Vec<char> = Vec::new();
    let ghost full: Seq<char> = low@;
    let mut i: usize = 0;
    proof {
        assert(full.skip(0) =~= full);
        assert(out.deep_view() + scan_tokens(full, Seq::<char>::empty()) =~= tokens_of(full));
    }
    while i < low.len()
        invariant
            i <= low.len(),
            low@ == full,
            out.deep_view() + scan_tokens(full.skip(i as int), cur@) == tokens_of(full),
        decreases low.len() - i,
    {
        let c = low[i];
        proof {
            assert(full.skip(i as int)[0] == full[i as int]);
            assert(full.skip(i as int).drop_first() =~= full.skip(i + 1));
        }
        if word_char(c) {
            cur.push(c);
        } else {
            if cur.len() >= 2 {
                let ghost old_out = out.deep_view();
                let ghost done = cur@;
                out.push(cur);
                proof {
                    assert(out.deep_view() =~~= old_out.push(done));
                    assert(old_out.push(done) =~= old_out + emit_run(done));
                }
                cur = Vec::new();
            } else {
                cur = Vec::new();
                proof {
                    assert(out.deep_view() + emit_run(Seq::<char>::empty())
                        =~= out.deep_view());
                }
            }
        }
        i = i + 1;
    }
    proof {
        assert(full.skip(i as int) =~= Seq::<char>::empty());
        assert(scan_tokens(Seq::<char>::empty(), cur@) == emit_run(cur@));
    }
    if cur.len() >= 2 {
        let ghost old_out = out.deep_view();
        let ghost done = cur@;
        out.push(cur);
        proof {
            assert(out.deep_view() =~~= old_out.push(done));
            assert(old_out.push(done) =~= old_out + emit_run(done));
        }
    }
    proof {
        assert(out.deep_view() =~= tokens_of(full));
    }
    out
}

/// Tokenizes text into lowercase alphanumeric runs of length at least two,
/// as vectors of characters.
pub fn tokenize_chars(text: &str) -> (r: Vec<Vec<char>>)
    ensures
        r.deep_view() == text_tokens(text@),
{
    let low = lower_text(text);
    scan_runs(&low)
}

/// Copies a character vector.
pub fn clone_chars(v: &Vec<char>) -> (r: Vec<char>)
    ensures
        r@ == v@,
{
    let mut r: Vec<char> = Vec::new();
    let mut i: usize = 0;
    while i < v.len()
        invariant
            i <= v.len(),
            r@ == v@.take(i as int),
        decreases v.len() - i,
    {
        r.push(v[i]);
        proof {
            assert(v@.take(i + 1) =~= v@.take(i as int).push(v@[i as int]));
        }
        i = i + 1;
    }
    proof {
        assert(v@.take(v@.len() as int) =~= v@);
    }
    r
}

/// Collects the characters of a string slice into a vector.
pub fn str_chars(s: &str) -> (r: Vec<char>)
    ensures
        r@ == s@,
{
    let n = s.unicode_len();
    let mut r: Vec<char> = Vec::new();
    let mut i: usize = 0;
    while i < n
        invariant
            n == s@.len(),
            i <= n,
            r@ == s@.take(i as int),
        decreases n - i,
    {
        r.push(s.get_char(i));
        proof {
            assert(s@.take(i + 1) =~= s@.take(i as int).push(s@[i as int]));
        }
        i = i + 1;
    }
    proof {
        assert(s@.take(n as int) =~= s@);
    }
    r
}

/// Builds a string from a vector of characters.
pub fn chars_to_string(v: &Vec<char>) -> (r: String)
    ensures
        r@ == v@,
{
    let mut s = String::new();
    let mut i: usize = 0;
    while i < v.len()
        invariant
            i <= v.len(),
            s@ == v@.take(i as int),
        decreases v.len() - i,
    {
        push_char(&mut s, v[i]);
        proof {
            assert(v@.take(i + 1) =~= v@.take(i as int).push(v@[i as int]));
        }
        i = i + 1;
    }
    proof {
        assert(v@.take(v@.len() as int) =~= v@);
    }
    s
}

/// Tokenizes text into lowercase alphanumeric runs of length at least two.
pub fn tokenize(text: &str) -> (r: Vec<String>)
    ensures
        r.deep_view() == text_tokens(text@),
{
    let toks = tokenize_chars(text);
    let mut r: Vec<String> = Vec::new();
    let mut i: usize = 0;
    while i < toks.len()
        invariant
            i <= toks.len(),
            r.deep_view() =~= toks.deep_view().take(i as int),
        decreases toks.len() - i,
    {
        let ghost old_r = r.deep_view();
        let s = chars_to_string(&toks[i]);
        let ghost sv = s@;
        r.push(s);
        proof {
            assert(r.deep_view() =~~= old_r.push(sv));
            assert(toks.deep_view()[i as int] =~= toks@[i as int]@);
            assert(old_r.push(sv) =~= toks.deep_view().take(i + 1));
        }
        i = i + 1;
    }
    proof {
        assert(toks.deep_view().take(toks.deep_view().len() as int) =~= toks.deep_view());
    }
    r
}

/// Tests two character vectors for equality.
pub fn chars_eq(a: &Vec<char>, b: &Vec<char>) -> (r: bool)
    ensures
        r == (a@ == b@),
{
    if a.len() != b.len() {
        return false;
    }
    let mut i: usize = 0;
    while i < a.len()
        invariant
            a.len() == b.len(),
            i <= a.len(),
            forall|j: int| 0 <= j < i ==> a@[j] == b@[j],
        decreases a.len() - i,
    {
        if a[i] != b[i] {
            return false;
        }
        i = i + 1;
    }
    proof {
        assert(a@ =~= b@);
    }
    true
}

/// Lexicographic order on character sequences by Unicode scalar value.
pub open spec fn lex_le(a: Seq<char>, b: Seq<char>) -> bool
    decreases a.len(),
{
    if a.len() == 0 {
        true
    } else if b.len() == 0 {
        false
    } else if a[0] == b[0] {
        lex_le(a.drop_first(), b.drop_first())
    } else {
        (a[0] as u32) < (b[0] as u32)
    }
}

/// Decides the lexicographic order on character vectors.
pub fn lex_le_chars(a: &Vec<char>, b: &Vec<char>) -> (r: bool)
    ensures
        r == lex_le(a@, b@),
{
    let mut i: usize = 0;
    proof {
        assert(a@.skip(0) =~= a@);
        assert(b@.skip(0) =~= b@);
    }
    loop
        invariant
            i <= a.len(),
            i <= b.len(),
            lex_le(a@, b@) == lex_le(a@.skip(i as int), b@.skip(i as int)),
        decreases a.len() - i,
    {
        if i == a.len() {
            return true;
        }
        if i == b.len() {
            return false;
        }
        proof {
            assert(a@.skip(i as int)[0] == a@[i as int]);
            assert(b@.skip(i as int)[0] == b@[i as int]);
            assert(a@.skip(i as int).drop_first() =~= a@.skip(i + 1));
            assert(b@.skip(i as int).drop_first() =~= b@.skip(i + 1));
        }
        let ca = a[i];
        let cb = b[i];
        if ca != cb {
            return (ca as u32) < (cb as u32);
        }
        i = i + 1;
    }
}

/// A character is its Unicode scalar value: equal scalars are the same
/// character.
pub proof fn lemma_char_scalar_injective(a: char, b: char)
    requires
        a as u32 == b as u32,
    ensures
        a == b,
{
}

/// Any two sequences are lexicographically comparable.
pub proof fn lemma_lex_total(a: Seq<char>, b: Seq<char>)
    ensures
        lex_le(a, b) || lex_le(b, a),
    decreases a.len(),
{
    if a.len() == 0 || b.len() == 0 {
    } else if a[0] == b[0] {
        lemma_lex_total(a.drop_first(), b.drop_first());
    } else {
        if (a[0] as u32) == (b[0] as u32) {
            lemma_char_scalar_injective(a[0], b[0]);
        }
    }
}

/// Sequences below each other are equal.
pub proof fn lemma_lex_antisym(a: Seq<char>, b: Seq<char>)
    requires
        lex_le(a, b),
        lex_le(b, a),
    ensures
        a == b,
    decreases a.len(),
{
    if a.len() == 0 {
        assert(b.len() == 0);
        assert(a =~= b);
    } else if a[0] == b[0] {
        lemma_lex_antisym(a.drop_first(), b.drop_first());
        assert(a =~= Seq::<char>::empty().push(a[0]) + a.drop_first());
        assert(b =~= Seq::<char>::empty().push(b[0]) + b.drop_first());
    } else {
    }
}

/// The lexicographic order is transitive.
pub proof fn lemma_lex_trans(a: Seq<char>, b: Seq<char>, c: Seq<char>)
    requires
        lex_le(a, b),
        lex_le(b, c),
    ensures
        lex_le(a, c),
    decreases a.len(),
{
    if a.len() == 0 || b.len() == 0 || c.len() == 0 {
    } else if a[0] == b[0] && b[0] == c[0] {
        lemma_lex_trans(a.drop_first(), b.drop_first(), c.drop_first());
    } else {
    }
}

/// Whether `needle` occurs contiguously inside `hay`.
pub open spec fn is_substring(needle: Seq<char>, hay: Seq<char>) -> bool {
    exists|k: int|
        0 <= k <= hay.len() - needle.len() && (#[trigger] hay.subrange(k, k + needle.len()))
            == needle
}

/// Tests whether `needle` occurs contiguously inside `hay`.
pub fn contains_chars(hay: &Vec<char>, needle: &Vec<char>) -> (r: bool)
    ensures
        r == is_substring(needle@, hay@),
{
    let n = needle.len();
    let h = hay.len();
    if n > h {
        proof {
            assert(!is_substring(needle@, hay@));
        }
        return false;
    }
    if n == 0 {
        proof {
            assert(hay@.subrange(0, 0 + needle@.len() as int) =~= needle@);
        }
        return true;
    }
    let mut k: usize = 0;
    while k <= h - n
        invariant
            n == needle@.len(),
            h == hay@.len(),
            1 <= n <= h,
            k <= h - n + 1,
            forall|q: int|
                0 <= q < k ==> (#[trigger] hay@.subrange(q, q + needle@.len())) != needle@,
        decreases h - n - k + 1,
    {
        let mut m: usize = 0;
        let mut matched = true;
        while m < n
            invariant
                n == needle@.len(),
                h == hay@.len(),
                n <= h,
                k <= h - n,
                m <= n,
                matched ==> forall|q: int| 0 <= q < m ==> hay@[k + q] == needle@[q],
                !matched ==> hay@.subrange(k as int, k + needle@.len()) != needle@,
            decreases n - m,
        {
            if hay[k + m] != needle[m] {
                proof {
                    assert(hay@.subrange(k as int, k + needle@.len())[m as int] == hay@[k + m]);
                }
                matched = false;
                m = n;
            } else {
                m = m + 1;
            }
        }
        if matched {
            proof {
                assert(hay@.subrange(k as int, k + needle@.len()) =~= needle@);
            }
            return true;
        }
        k = k + 1;
    }
    proof {
        if is_substring(needle@, hay@) {
            let w = choose|w: int|
                0 <= w <= hay@.len() - needle@.len() && (#[trigger] hay@.subrange(
                    w,
                    w + needle@.len(),
                )) == needle@;
            assert(w < k);
        }
    }
    false
}

/// Whether `p` is a prefix of `s`.
pub open spec fn is_prefix(p: Seq<char>, s: Seq<char>) -> bool {
    p.len() <= s.len() && s.take(p.len() as int) == p
}

/// Tests whether `p` is a prefix of `s`.
pub fn is_prefix_chars(p: &Vec<char>, s: &Vec<char>) -> (r: bool)
    ensures
        r == is_prefix(p@, s@),
{
    if p.len() > s.len() {
        return false;
    }
    let mut i: usize = 0;
    while i < p.len()
        invariant
            p@.len() <= s@.len(),
            i <= p@.len(),
            forall|j: int| 0 <= j < i ==> s@[j] == p@[j],
        decreases p@.len() - i,
    {
        if s[i] != p[i] {
            proof {
                assert(s@.take(p@.len() as int)[i as int] == s@[i as int]);
            }
            return false;
        }
        i = i + 1;
    }
    proof {
        assert(s@.take(p@.len() as int) =~= p@);
    }
    true
}

} // verus!
