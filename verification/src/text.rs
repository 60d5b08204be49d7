use vstd::prelude::*;

verus! {

/// A whitespace character: the Unicode `White_Space` set, the characters
/// that trimming a line removes.
pub open spec fn is_space(c: char) -> bool {
    let u = c as u32;
    (9 <= u && u <= 13) || u == 32 || u == 0x85 || u == 0xA0 || u == 0x1680 || (0x2000 <= u && u
        <= 0x200A) || u == 0x2028 || u == 0x2029 || u == 0x202F || u == 0x205F || u == 0x3000
}

fn char_is_space(c: char) -> (r: bool)
    ensures
        r == is_space(c),
{
    let u = c as u32;
    (9 <= u && u <= 13) || u == 32 || u == 0x85 || u == 0xA0 || u == 0x1680 || (0x2000 <= u && u
        <= 0x200A) || u == 0x2028 || u == 0x2029 || u == 0x202F || u == 0x205F || u == 0x3000
}

/// A line with its leading whitespace removed.
pub open spec fn trim_start_spec(s: Seq<char>) -> Seq<char>
    decreases s.len(),
{
    if s.len() > 0 && is_space(s.first()) {
        trim_start_spec(s.drop_first())
    } else {
        s
    }
}

/// A line with its trailing whitespace removed.
pub open spec fn trim_end_spec(s: Seq<char>) -> Seq<char>
    decreases s.len(),
{
    if s.len() > 0 && is_space(s.last()) {
        trim_end_spec(s.drop_last())
    } else {
        s
    }
}

/// A line with its surrounding whitespace removed.
pub open spec fn trim_spec(s: Seq<char>) -> Seq<char> {
    trim_end_spec(trim_start_spec(s))
}

/// Remove the surrounding whitespace of a line.
pub fn trim<'a>(s: &'a str) -> (r: &'a str)
    ensures
        r@ == trim_spec(s@),
{
    let n = s.unicode_len();
    let mut a: usize = 0;
    proof {
        assert(s@.subrange(0, n as int) =~= s@);
    }
    loop
        invariant
            0 <= a <= n,
            n == s@.len(),
            trim_start_spec(s@) == trim_start_spec(s@.subrange(a as int, n as int)),
        ensures
            0 <= a <= n,
            trim_start_spec(s@) == s@.subrange(a as int, n as int),
        decreases n - a,
    {
        if a >= n {
            assert(s@.subrange(a as int, n as int).len() == 0);
            break ;
        }
        if !char_is_space(s.get_char(a)) {
            assert(s@.subrange(a as int, n as int).first() == s@[a as int]);
            break ;
        }
        proof {
            let sub = s@.subrange(a as int, n as int);
            assert(sub.first() == s@[a as int]);
            assert(sub.drop_first() =~= s@.subrange(a as int + 1, n as int));
        }
        a += 1;
    }
    let mut b: usize = n;
    loop
        invariant
            a <= b <= n,
            n == s@.len(),
            trim_start_spec(s@) == s@.subrange(a as int, n as int),
            trim_end_spec(s@.subrange(a as int, n as int)) == trim_end_spec(
                s@.subrange(a as int, b as int),
            ),
        ensures
            a <= b <= n,
            trim_end_spec(s@.subrange(a as int, n as int)) == s@.subrange(a as int, b as int),
        decreases b - a,
    {
        if b <= a {
            assert(s@.subrange(a as int, b as int).len() == 0);
            break ;
        }
        if !char_is_space(s.get_char(b - 1)) {
            assert(s@.subrange(a as int, b as int).last() == s@[b as int - 1]);
            break ;
        }
        proof {
            let sub = s@.subrange(a as int, b as int);
            assert(sub.last() == s@[b as int - 1]);
            assert(sub.drop_last() =~= s@.subrange(a as int, b as int - 1));
        }
        b -= 1;
    }
    s.substring_char(a, b)
}

/// The position of the first `=` in a line, or the line's length where it
/// has none.
pub open spec fn first_eq(s: Seq<char>) -> int
    decreases s.len(),
{
    if s.len() == 0 {
        0
    } else if s.first() == '=' {
        0
    } else {
        1 + first_eq(s.drop_first())
    }
}

/// The first `=` lies in the line, is an `=`, and no `=` stands before it.
pub proof fn lemma_first_eq(s: Seq<char>)
    ensures
        0 <= first_eq(s) <= s.len(),
        first_eq(s) < s.len() ==> s[first_eq(s)] == '=',
        forall|j: int| 0 <= j < first_eq(s) ==> s[j] != '=',
    decreases s.len(),
{
    if s.len() == 0 {
    } else if s.first() == '=' {
    } else {
        lemma_first_eq(s.drop_first());
        if first_eq(s) < s.len() {
            assert(s[first_eq(s)] == s.drop_first()[first_eq(s) - 1]);
        }
        assert forall|j: int| 0 <= j < first_eq(s) implies s[j] != '=' by {
            if j > 0 {
                assert(s[j] == s.drop_first()[j - 1]);
            }
        }
    }
}

/// Split a line at its first `=`: the part before it and everything after
/// it, later `=` characters kept in the value. `None` where the line holds
/// no `=` at all.
pub fn split_first_eq<'a>(s: &'a str) -> (r: Option<(&'a str, &'a str)>)
    ensures
        first_eq(s@) < s@.len() ==> (match r {
            Some(kv) => kv.0@ == s@.subrange(0, first_eq(s@)) && kv.1@ == s@.subrange(
                first_eq(s@) + 1,
                s@.len() as int,
            ),
            None => false,
        }),
        first_eq(s@) == s@.len() ==> r is None,
{
    proof {
        lemma_first_eq(s@);
    }
    let n = s.unicode_len();
    let mut i: usize = 0;
    while i < n
        invariant
            0 <= i <= n,
            n == s@.len(),
            forall|j: int| 0 <= j < i ==> s@[j] != '=',
        decreases n - i,
    {
        if s.get_char(i) == '=' {
            proof {
                lemma_first_eq(s@);
                if first_eq(s@) < i {
                    assert(s@[first_eq(s@)] != '=');
                }
                assert(first_eq(s@) == i);
            }
            let k = s.substring_char(0, i);
            let v = s.substring_char(i + 1, n);
            return Some((k, v));
        }
        i += 1;
    }
    proof {
        lemma_first_eq(s@);
        if first_eq(s@) < s@.len() {
            assert(s@[first_eq(s@)] != '=');
        }
    }
    None
}

/// The lines of the bundle text: the segments between newline characters.
/// The empty text has one (empty) line, and a trailing newline yields a
/// final empty line; the record pipeline skips blank lines, so both match
/// line-by-line reading.
pub open spec fn split_lines(s: Seq<char>) -> Seq<Seq<char>>
    decreases s.len(),
{
    if s.len() == 0 {
        seq![Seq::<char>::empty()]
    } else if s.first() == '\n' {
        seq![Seq::<char>::empty()] + split_lines(s.drop_first())
    } else {
        let rest = split_lines(s.drop_first());
        seq![seq![s.first()] + rest.first()] + rest.drop_first()
    }
}

/// A text has at least one line.
pub proof fn lemma_split_lines_len(s: Seq<char>)
    ensures
        split_lines(s).len() >= 1,
    decreases s.len(),
{
    if s.len() == 0 {
    } else {
        lemma_split_lines_len(s.drop_first());
    }
}

/// Extending the text by one character extends its last line, or — for a
/// newline — starts a new empty line.
pub proof fn lemma_split_lines_push(s: Seq<char>, c: char)
    ensures
        c == '\n' ==> split_lines(s.push(c)) == split_lines(s).push(Seq::<char>::empty()),
        c != '\n' ==> split_lines(s.push(c)) == split_lines(s).update(
            split_lines(s).len() - 1,
            split_lines(s).last().push(c),
        ),
    decreases s.len(),
{
    lemma_split_lines_len(s);
    if s.len() == 0 {
        assert(s.push(c).first() == c);
        assert(s.push(c).drop_first() =~= Seq::<char>::empty());
        assert(split_lines(Seq::<char>::empty()) == seq![Seq::<char>::empty()]);
        assert(split_lines(s) == seq![Seq::<char>::empty()]);
        if c == '\n' {
            assert(split_lines(s.push(c)) == seq![Seq::<char>::empty()] + split_lines(
                Seq::<char>::empty(),
            ));
            assert(split_lines(s.push(c)) =~~= split_lines(s).push(Seq::<char>::empty()));
        } else {
            assert(split_lines(s.push(c)) == seq![seq![c] + split_lines(
                Seq::<char>::empty(),
            ).first()] + split_lines(Seq::<char>::empty()).drop_first());
            assert(split_lines(s.push(c)) =~~= split_lines(s).update(
                split_lines(s).len() - 1,
                split_lines(s).last().push(c),
            ));
        }
    } else {
        let t = s.drop_first();
        lemma_split_lines_len(t);
        lemma_split_lines_push(t, c);
        assert(s.push(c).first() == s.first());
        assert(s.push(c).drop_first() =~= t.push(c));
        if s.first() == '\n' {
            if c == '\n' {
                assert(split_lines(s.push(c)) =~~= split_lines(s).push(Seq::<char>::empty()));
            } else {
                assert(split_lines(s.push(c)) =~~= split_lines(s).update(
                    split_lines(s).len() - 1,
                    split_lines(s).last().push(c),
                ));
            }
        } else {
            if c == '\n' {
                assert(split_lines(s.push(c)) =~~= split_lines(s).push(Seq::<char>::empty()));
            } else {
                assert(split_lines(s.push(c)) =~~= split_lines(s).update(
                    split_lines(s).len() - 1,
                    split_lines(s).last().push(c),
                ));
            }
        }
    }
}

/// Split the bundle text into its lines.
pub fn split_into_lines(s: &str) -> (r: Vec<String>)
    ensures
        r.deep_view() == split_lines(s@),
{
    let n = s.unicode_len();
    let mut out: Vec<String> = Vec::new();
    let mut cur = String::new();
    let mut i: usize = 0;
    proof {
        assert(s@.subrange(0, 0) =~= Seq::<char>::empty());
        assert(out.deep_view().push(cur@) =~~= split_lines(s@.subrange(0, 0)));
    }
    while i < n
        invariant
            0 <= i <= n,
            n == s@.len(),
            out.deep_view().push(cur@) == split_lines(s@.subrange(0, i as int)),
        decreases n - i,
    {
        proof {
            lemma_split_lines_push(s@.subrange(0, i as int), s@[i as int]);
            assert(s@.subrange(0, i as int + 1) =~= s@.subrange(0, i as int).push(s@[i as int]));
        }
        let c = s.get_char(i);
        if c == '\n' {
            out.push(cur);
            cur = String::new();
            proof {
                assert(out.deep_view().push(cur@) =~~= split_lines(s@.subrange(0, i as int + 1)));
            }
        } else {
            let piece = s.substring_char(i, i + 1);
            cur.append(piece);
            proof {
                assert(cur@ =~= split_lines(s@.subrange(0, i as int)).last().push(s@[i as int]));
                assert(out.deep_view().push(cur@) =~~= split_lines(s@.subrange(0, i as int + 1)));
            }
        }
        i += 1;
    }
    proof {
        assert(s@.subrange(0, n as int) =~= s@);
    }
    out.push(cur);
    proof {
        assert(out.deep_view() =~~= split_lines(s@));
    }
    out
}

} // verus!
