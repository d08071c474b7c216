//! Pronunciation dictionary lines: an input field and an output field separated
//! by TAB, each split into tokens.
use crate::lattice::{views, AlignError, Config};
use vstd::prelude::*;

verus! {

/// Unicode white space, as `char::is_whitespace` knows it.
pub open spec fn is_space(c: char) -> bool {
    let u = c as u32;
    (0x09 <= u <= 0x0d) || u == 0x20 || u == 0x85 || u == 0xa0 || u == 0x1680 || (0x2000 <= u <= 0x200a)
        || u == 0x2028 || u == 0x2029 || u == 0x202f || u == 0x205f || u == 0x3000
}

/// The text without its leading white space.
pub open spec fn trim_start(s: Seq<char>) -> Seq<char>
    decreases s.len(),
{
    if s.len() > 0 && is_space(s[0]) {
        trim_start(s.drop_first())
    } else {
        s
    }
}

/// The text without its trailing white space.
pub open spec fn trim_end(s: Seq<char>) -> Seq<char>
    decreases s.len(),
{
    if s.len() > 0 && is_space(s.last()) {
        trim_end(s.drop_last())
    } else {
        s
    }
}

/// The text without white space at either end.
pub open spec fn trimmed(s: Seq<char>) -> Seq<char> {
    trim_end(trim_start(s))
}

/// The piece `s[start..end]`, unless it is empty.
pub open spec fn flush(s: Seq<char>, start: int, end: int) -> Seq<Seq<char>> {
    if start < end {
        seq![s.subrange(start, end)]
    } else {
        Seq::empty()
    }
}

/// A non-empty delimiter `d` occurs in `s` at `i`.
pub open spec fn matches_at(s: Seq<char>, d: Seq<char>, i: int) -> bool {
    d.len() > 0 && 0 <= i && i + d.len() <= s.len() && s.subrange(i, i + d.len()) == d
}

/// The non-empty pieces of `s` from `i` on, the current piece starting at `start`;
/// occurrences of `d` are taken from left to right.
pub open spec fn split_rest(s: Seq<char>, d: Seq<char>, i: int, start: int) -> Seq<Seq<char>>
    decreases s.len() - i,
{
    if i < 0 || i >= s.len() {
        flush(s, start, s.len() as int)
    } else if d.len() == 0 {
        seq![s.subrange(i, i + 1)] + split_rest(s, d, i + 1, i + 1)
    } else if matches_at(s, d, i) {
        flush(s, start, i) + split_rest(s, d, i + d.len(), i + d.len())
    } else {
        split_rest(s, d, i + 1, start)
    }
}

/// The non-empty pieces of `s` between occurrences of `d`; with an empty `d`,
/// each character is a piece.
pub open spec fn fields(s: Seq<char>, d: Seq<char>) -> Seq<Seq<char>> {
    split_rest(s, d, 0, 0)
}

/// All pieces of `s` from `i` on, empty ones included, the current piece starting
/// at `start`; occurrences of a non-empty `d` are taken from left to right.
pub open spec fn pieces_rest(s: Seq<char>, d: Seq<char>, i: int, start: int) -> Seq<Seq<char>>
    decreases s.len() - i,
{
    if i < 0 || i >= s.len() || d.len() == 0 {
        seq![s.subrange(start, s.len() as int)]
    } else if matches_at(s, d, i) {
        seq![s.subrange(start, i)] + pieces_rest(s, d, i + d.len(), i + d.len())
    } else {
        pieces_rest(s, d, i + 1, start)
    }
}

/// The pieces of `s` between occurrences of `d`, empty ones included, as
/// `str::split` gives them: with an empty `d`, an empty piece, then each
/// character, then an empty piece.
pub open spec fn pieces(s: Seq<char>, d: Seq<char>) -> Seq<Seq<char>> {
    if d.len() == 0 {
        seq![Seq::<char>::empty()] + s.map_values(|c: char| seq![c]) + seq![Seq::<char>::empty()]
    } else {
        pieces_rest(s, d, 0, 0)
    }
}

/// The non-empty runs of non-white-space characters of `s` from `i` on, the
/// current run starting at `start`.
pub open spec fn words_rest(s: Seq<char>, i: int, start: int) -> Seq<Seq<char>>
    decreases s.len() - i,
{
    if i < 0 || i >= s.len() {
        flush(s, start, s.len() as int)
    } else if is_space(s[i]) {
        flush(s, start, i) + words_rest(s, i + 1, i + 1)
    } else {
        words_rest(s, i + 1, start)
    }
}

/// The words of `s`: its maximal runs of non-white-space characters.
pub open spec fn words(s: Seq<char>) -> Seq<Seq<char>> {
    words_rest(s, 0, 0)
}

/// The two fields of a dictionary line, when it has exactly two.
pub open spec fn entry_fields(line: Seq<char>) -> Seq<Seq<char>> {
    fields(trimmed(line), seq!['\t'])
}

/// The characters of `s`.
fn chars_of(s: &str) -> (r: Vec<char>)
    ensures
        r@ == s@,
{
    let n = s.unicode_len();
    let mut r: Vec<char> = Vec::new();
    let mut i: usize = 0;
    while i < n
        invariant
            i <= n,
            n == s@.len(),
            r@ == s@.take(i as int),
        decreases n - i,
    {
        r.push(s.get_char(i));
        proof {
            assert(r@ =~= s@.take(i + 1));
        }
        i = i + 1;
    }
    proof {
        assert(r@ =~= s@);
    }
    r
}

/// Tells whether `c` is white space.
fn space(c: char) -> (r: bool)
    ensures
        r == is_space(c),
{
    let u = c as u32;
    (0x09 <= u && u <= 0x0d) || u == 0x20 || u == 0x85 || u == 0xa0 || u == 0x1680 || (0x2000 <= u && u <= 0x200a)
        || u == 0x2028 || u == 0x2029 || u == 0x202f || u == 0x205f || u == 0x3000
}

proof fn lemma_trim_start_skip(s: Seq<char>, i: int)
    requires
        0 <= i < s.len(),
        is_space(s[i]),
    ensures
        trim_start(s.subrange(i, s.len() as int)) == trim_start(s.subrange(i + 1, s.len() as int)),
{
    assert(s.subrange(i, s.len() as int).drop_first() =~= s.subrange(i + 1, s.len() as int));
}

proof fn lemma_trim_end_skip(s: Seq<char>, i: int, j: int)
    requires
        0 <= i < j <= s.len(),
        is_space(s[j - 1]),
    ensures
        trim_end(s.subrange(i, j)) == trim_end(s.subrange(i, j - 1)),
{
    assert(s.subrange(i, j).drop_last() =~= s.subrange(i, j - 1));
}

/// The text without white space at either end.
pub fn trim(s: &str) -> (r: String)
    ensures
        r@ == trimmed(s@),
{
    let c = chars_of(s);
    let n = c.len();
    let mut i: usize = 0;
    proof {
        assert(s@.subrange(0, n as int) =~= s@);
    }
    while i < n && space(c[i])
        invariant
            i <= n,
            n == s@.len(),
            c@ == s@,
            trim_start(s@) == trim_start(s@.subrange(i as int, n as int)),
        decreases n - i,
    {
        proof {
            lemma_trim_start_skip(s@, i as int);
        }
        i = i + 1;
    }
    assert(trim_start(s@) == s@.subrange(i as int, n as int));
    let mut j: usize = n;
    proof {
        assert(s@.subrange(i as int, n as int) =~= s@.subrange(i as int, j as int));
    }
    while j > i && space(c[j - 1])
        invariant
            i <= j <= n,
            n == s@.len(),
            c@ == s@,
            trimmed(s@) == trim_end(s@.subrange(i as int, j as int)),
        decreases j,
    {
        proof {
            lemma_trim_end_skip(s@, i as int, j as int);
        }
        j = j - 1;
    }
    proof {
        let t = s@.subrange(i as int, j as int);
        if t.len() > 0 {
            assert(t.last() == s@[j - 1]);
        }
    }
    String::from_str(s.substring_char(i, j))
}

/// The delimiter `d` occurs in `c` at `i`.
fn delimiter_at(c: &Vec<char>, d: &Vec<char>, i: usize) -> (r: bool)
    requires
        i < c.len(),
    ensures
        r == matches_at(c@, d@, i as int),
{
    if d.len() == 0 || d.len() > c.len() - i {
        return false;
    }
    let mut t: usize = 0;
    while t < d.len()
        invariant
            t <= d.len(),
            i + d.len() <= c.len(),
            forall|y: int| 0 <= y < t ==> c@[i + y] == d@[y],
        decreases d.len() - t,
    {
        if c[i + t] != d[t] {
            proof {
                assert(c@.subrange(i as int, i + d.len())[t as int] != d@[t as int]);
            }
            return false;
        }
        t = t + 1;
    }
    proof {
        assert(c@.subrange(i as int, i + d.len()) =~= d@);
    }
    true
}

/// The non-empty pieces of `s` between occurrences of `delim`, taken from left to
/// right; with an empty `delim`, each character is a piece.
pub fn split_fields(s: &str, delim: &str) -> (r: Vec<String>)
    ensures
        views(r@) == fields(s@, delim@),
{
    let c = chars_of(s);
    let d = chars_of(delim);
    let n = c.len();
    let mut r: Vec<String> = Vec::new();
    let mut i: usize = 0;
    let mut start: usize = 0;
    proof {
        assert(views(r@) + split_rest(s@, delim@, 0, 0) =~= fields(s@, delim@));
    }
    while i < n
        invariant
            n == s@.len(),
            c@ == s@,
            d@ == delim@,
            start <= i <= n,
            views(r@) + split_rest(s@, delim@, i as int, start as int) == fields(s@, delim@),
        decreases n - i,
    {
        let ghost prev = views(r@);
        if d.len() == 0 {
            r.push(String::from_str(s.substring_char(i, i + 1)));
            proof {
                assert(views(r@) =~= prev.push(s@.subrange(i as int, i + 1)));
                assert(views(r@) + split_rest(s@, delim@, i + 1, i + 1) =~= prev + split_rest(s@, delim@, i as int, start as int));
            }
            i = i + 1;
            start = i;
        } else if delimiter_at(&c, &d, i) {
            if start < i {
                r.push(String::from_str(s.substring_char(start, i)));
            }
            proof {
                assert(views(r@) =~= prev + flush(s@, start as int, i as int));
                assert(views(r@) + split_rest(s@, delim@, i + d.len(), i + d.len()) =~= prev + split_rest(s@, delim@, i as int, start as int));
            }
            i = i + d.len();
            start = i;
        } else {
            i = i + 1;
        }
    }
    if start < n {
        let ghost prev = views(r@);
        r.push(String::from_str(s.substring_char(start, n)));
        proof {
            assert(views(r@) =~= prev + flush(s@, start as int, n as int));
        }
    }
    proof {
        if start >= n {
            assert(flush(s@, start as int, n as int) =~= Seq::<Seq<char>>::empty());
            assert(views(r@) + split_rest(s@, delim@, i as int, start as int) =~= views(r@));
        }
    }
    r
}

/// The pieces of `s` between occurrences of `delim`, empty ones included.
pub fn split_pieces(s: &str, delim: &str) -> (r: Vec<String>)
    ensures
        views(r@) == pieces(s@, delim@),
{
    let c = chars_of(s);
    let d = chars_of(delim);
    let n = c.len();
    let mut r: Vec<String> = Vec::new();
    if d.len() == 0 {
        r.push(String::new());
        let mut i: usize = 0;
        while i < n
            invariant
                n == s@.len(),
                i <= n,
                views(r@) == seq![Seq::<char>::empty()] + s@.take(i as int).map_values(|c: char| seq![c]),
            decreases n - i,
        {
            let ghost prev = views(r@);
            r.push(String::from_str(s.substring_char(i, i + 1)));
            proof {
                assert(s@.subrange(i as int, i + 1) =~= seq![s@[i as int]]);
                assert(views(r@) =~= prev.push(seq![s@[i as int]]));
                assert(s@.take(i + 1).map_values(|c: char| seq![c]) =~= s@.take(i as int).map_values(|c: char| seq![c]).push(seq![s@[i as int]]));
                assert(views(r@) =~= seq![Seq::<char>::empty()] + s@.take(i + 1).map_values(|c: char| seq![c]));
            }
            i = i + 1;
        }
        r.push(String::new());
        proof {
            assert(s@.take(n as int) =~= s@);
            assert(views(r@) =~= pieces(s@, delim@));
        }
        return r;
    }
    let mut i: usize = 0;
    let mut start: usize = 0;
    proof {
        assert(views(r@) + pieces_rest(s@, delim@, 0, 0) =~= pieces(s@, delim@));
    }
    while i < n
        invariant
            n == s@.len(),
            c@ == s@,
            d@ == delim@,
            d@.len() > 0,
            start <= i <= n,
            views(r@) + pieces_rest(s@, delim@, i as int, start as int) == pieces(s@, delim@),
        decreases n - i,
    {
        let ghost prev = views(r@);
        if delimiter_at(&c, &d, i) {
            r.push(String::from_str(s.substring_char(start, i)));
            proof {
                assert(views(r@) =~= prev.push(s@.subrange(start as int, i as int)));
                assert(views(r@) + pieces_rest(s@, delim@, i + d.len(), i + d.len()) =~= prev + pieces_rest(s@, delim@, i as int, start as int));
            }
            i = i + d.len();
            start = i;
        } else {
            i = i + 1;
        }
    }
    let ghost prev = views(r@);
    r.push(String::from_str(s.substring_char(start, n)));
    proof {
        assert(views(r@) =~= prev.push(s@.subrange(start as int, n as int)));
    }
    r
}

/// The words of `s`: its maximal runs of non-white-space characters.
pub fn split_words(s: &str) -> (r: Vec<String>)
    ensures
        views(r@) == words(s@),
{
    let c = chars_of(s);
    let n = c.len();
    let mut r: Vec<String> = Vec::new();
    let mut i: usize = 0;
    let mut start: usize = 0;
    proof {
        assert(views(r@) + words_rest(s@, 0, 0) =~= words(s@));
    }
    while i < n
        invariant
            n == s@.len(),
            c@ == s@,
            start <= i <= n,
            views(r@) + words_rest(s@, i as int, start as int) == words(s@),
        decreases n - i,
    {
        let ghost prev = views(r@);
        if space(c[i]) {
            if start < i {
                r.push(String::from_str(s.substring_char(start, i)));
            }
            proof {
                assert(views(r@) =~= prev + flush(s@, start as int, i as int));
                assert(views(r@) + words_rest(s@, i + 1, i + 1) =~= prev + words_rest(s@, i as int, start as int));
            }
            i = i + 1;
            start = i;
        } else {
            i = i + 1;
        }
    }
    if start < n {
        let ghost prev = views(r@);
        r.push(String::from_str(s.substring_char(start, n)));
        proof {
            assert(views(r@) =~= prev + flush(s@, start as int, n as int));
        }
    } else {
        proof {
            assert(views(r@) + words_rest(s@, i as int, start as int) =~= views(r@));
        }
    }
    r
}

/// Splits a dictionary line into its input and output tokens: the trimmed line
/// must hold exactly two non-empty TAB-separated fields, the first split by the
/// input delimiter, the second by the output delimiter, empty tokens dropped.
pub fn parse_entry(c: &Config, line: &str) -> (r: Result<(Vec<String>, Vec<String>), AlignError>)
    ensures
        entry_fields(line@).len() != 2 <==> r is Err,
        r is Err ==> r == Err::<(Vec<String>, Vec<String>), AlignError>(AlignError::MalformedEntry(r->Err_0->MalformedEntry_0))
            && r->Err_0->MalformedEntry_0@ == line@,
        r is Ok ==> views(r->Ok_0.0@) == fields(entry_fields(line@)[0], c.s1_char_delim@)
            && views(r->Ok_0.1@) == fields(entry_fields(line@)[1], c.s2_char_delim@),
{
    let t = trim(line);
    let parts = split_fields(t.as_str(), "\t");
    proof {
        reveal_strlit("\t");
        assert("\t"@ =~= seq!['\t']);
    }
    if parts.len() != 2 {
        return Err(AlignError::MalformedEntry(String::from_str(line)));
    }
    let seq1 = split_fields(parts[0].as_str(), c.s1_char_delim.as_str());
    let seq2 = split_fields(parts[1].as_str(), c.s2_char_delim.as_str());
    Ok((seq1, seq2))
}

} // verus!
