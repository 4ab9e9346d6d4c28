use vstd::prelude::*;
use vstd::string::StrSliceExecFns;

verus! {

/// The whitespace characters stripped from both ends of a listing line.
pub open spec fn spec_is_space(c: char) -> bool {
    c == ' ' || c == '\t' || c == '\r'
}

/// Drops leading whitespace.
pub open spec fn trim_front(s: Seq<char>) -> Seq<char>
    decreases s.len(),
{
    if s.len() > 0 && spec_is_space(s[0]) {
        trim_front(s.drop_first())
    } else {
        s
    }
}

/// Drops trailing whitespace.
pub open spec fn trim_back(s: Seq<char>) -> Seq<char>
    decreases s.len(),
{
    if s.len() > 0 && spec_is_space(s.last()) {
        trim_back(s.drop_last())
    } else {
        s
    }
}

/// A line with whitespace stripped from both ends.
pub open spec fn spec_trim(s: Seq<char>) -> Seq<char> {
    trim_back(trim_front(s))
}

/// Position of the first newline in `s`, or `s.len()` if there is none.
pub open spec fn first_nl(s: Seq<char>) -> nat
    decreases s.len(),
{
    if s.len() == 0 {
        0
    } else if s[0] == '\n' {
        0
    } else {
        1 + first_nl(s.drop_first())
    }
}

/// The listing seen as a sequence of trimmed lines: segments between
/// newlines, each trimmed, with a trailing empty segment (after a final
/// newline) not counted as a line.
pub open spec fn trimmed_lines(s: Seq<char>) -> Seq<Seq<char>>
    decreases s.len(),
{
    if s.len() == 0 {
        Seq::empty()
    } else {
        let i = first_nl(s) as int;
        if i < s.len() {
            seq![spec_trim(s.subrange(0, i))] + trimmed_lines(
                s.subrange(i + 1, s.len() as int),
            )
        } else {
            seq![spec_trim(s)]
        }
    }
}

proof fn lemma_first_nl_at(s: Seq<char>, k: int)
    requires
        0 <= k <= s.len(),
        forall|j: int| 0 <= j < k ==> s[j] != '\n',
        k < s.len() ==> s[k] == '\n',
    ensures
        first_nl(s) == k,
    decreases k,
{
    if k == 0 {
    } else {
        assert(s[0] != '\n');
        lemma_first_nl_at(s.drop_first(), k - 1);
    }
}

proof fn lemma_trim_front_at(s: Seq<char>, k: int)
    requires
        0 <= k <= s.len(),
        forall|j: int| 0 <= j < k ==> spec_is_space(s[j]),
        k < s.len() ==> !spec_is_space(s[k]),
    ensures
        trim_front(s) == s.subrange(k, s.len() as int),
    decreases k,
{
    if k == 0 {
        assert(s.subrange(0, s.len() as int) =~= s);
    } else {
        assert(spec_is_space(s[0]));
        lemma_trim_front_at(s.drop_first(), k - 1);
        assert(s.drop_first().subrange(k - 1, s.drop_first().len() as int) =~= s.subrange(
            k,
            s.len() as int,
        ));
    }
}

proof fn lemma_trim_back_at(s: Seq<char>, k: int)
    requires
        0 <= k <= s.len(),
        forall|j: int| k <= j < s.len() ==> spec_is_space(s[j]),
        k > 0 ==> !spec_is_space(s[k - 1]),
    ensures
        trim_back(s) == s.subrange(0, k),
    decreases s.len() - k,
{
    if k == s.len() {
        if s.len() > 0 && spec_is_space(s.last()) {
            assert(!spec_is_space(s[k - 1]));
            assert(false);
        }
        assert(s.subrange(0, k) =~= s);
    } else {
        assert(spec_is_space(s.last()));
        lemma_trim_back_at(s.drop_last(), k);
        assert(s.drop_last().subrange(0, k) =~= s.subrange(0, k));
    }
}

/// Whether a character counts as trimmable whitespace.
pub fn is_space(c: char) -> (r: bool)
    ensures
        r == spec_is_space(c),
{
    c == ' ' || c == '\t' || c == '\r'
}

/// The trimmed form of the character range `from..to` of `s`.
fn trim_range(s: &str, from: usize, to: usize) -> (r: String)
    requires
        from <= to <= s@.len(),
    ensures
        r@ == spec_trim(s@.subrange(from as int, to as int)),
{
    let mut a: usize = from;
    while a < to && is_space(s.get_char(a))
        invariant
            from <= a <= to <= s@.len(),
            forall|j: int| from <= j < a ==> spec_is_space(s@[j]),
        decreases to - a,
    {
        a += 1;
    }
    let mut b: usize = to;
    while b > a && is_space(s.get_char(b - 1))
        invariant
            a <= b <= to <= s@.len(),
            forall|j: int| b <= j < to ==> spec_is_space(s@[j]),
        decreases b,
    {
        b -= 1;
    }
    proof {
        let t = s@.subrange(from as int, to as int);
        lemma_trim_front_at(t, a - from);
        let tf = t.subrange(a - from, t.len() as int);
        assert(forall|j: int| b - a <= j < tf.len() ==> spec_is_space(tf[j]));
        lemma_trim_back_at(tf, b - a);
        assert(tf.subrange(0, b - a) =~= s@.subrange(a as int, b as int));
    }
    let piece = s.substring_char(a, b);
    piece.to_owned()
}

/// Splits the edited text into lines and trims each one. A trailing empty
/// segment after a final newline is not a line.
pub fn parse_listing(text: &String) -> (r: Vec<String>)
    ensures
        r.deep_view() == trimmed_lines(text@),
{
    let s = text.as_str();
    let n = s.unicode_len();
    let mut res: Vec<String> = Vec::new();
    let mut start: usize = 0;
    proof {
        assert(s@.subrange(0, n as int) =~= s@);
        assert(res.deep_view() + trimmed_lines(s@) =~= trimmed_lines(s@));
    }
    while start < n
        invariant
            start <= n,
            n == s@.len(),
            trimmed_lines(s@) == res.deep_view() + trimmed_lines(
                s@.subrange(start as int, n as int),
            ),
        decreases n - start,
    {
        let mut i: usize = start;
        while i < n && s.get_char(i) != '\n'
            invariant
                start <= i <= n,
                n == s@.len(),
                forall|j: int| start <= j < i ==> s@[j] != '\n',
            decreases n - i,
        {
            i += 1;
        }
        let ghost rest = s@.subrange(start as int, n as int);
        proof {
            assert(forall|j: int| 0 <= j < i - start ==> rest[j] != '\n');
            lemma_first_nl_at(rest, i - start);
        }
        let line = trim_range(s, start, i);
        proof {
            assert(rest.subrange(0, i - start) =~= s@.subrange(start as int, i as int));
        }
        let ghost old_res = res.deep_view();
        res.push(line);
        proof {
            assert(res.deep_view() =~= old_res.push(line@));
        }
        if i < n {
            proof {
                assert(rest.subrange(i - start + 1, rest.len() as int) =~= s@.subrange(
                    i + 1,
                    n as int,
                ));
                assert(trimmed_lines(rest) == seq![spec_trim(s@.subrange(start as int, i as int))]
                    + trimmed_lines(s@.subrange(i + 1, n as int)));
                assert(res.deep_view() + trimmed_lines(s@.subrange(i + 1, n as int)) =~= old_res
                    + trimmed_lines(rest));
            }
            start = i + 1;
        } else {
            proof {
                assert(rest.len() > 0);
                assert(trimmed_lines(rest) == seq![spec_trim(rest)]);
                assert(rest =~= s@.subrange(start as int, i as int));
                assert(res.deep_view() + trimmed_lines(s@.subrange(n as int, n as int)) =~= old_res
                    + trimmed_lines(rest));
            }
            start = n;
        }
    }
    proof {
        assert(s@.subrange(start as int, n as int) =~= Seq::<char>::empty());
        assert(trimmed_lines(s@) =~= res.deep_view());
    }
    res
}

} // verus!
