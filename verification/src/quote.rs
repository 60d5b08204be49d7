use vstd::prelude::*;

verus! {

/// The expansion of one character of a value inside a single-quoted shell
/// word: a single quote becomes `'"'"'` (leave single quotes, pass one `'`
/// inside double quotes, reenter single quotes); any other character stands
/// for itself.
pub open spec fn quote_char(c: char) -> Seq<char> {
    if c == '\'' {
        seq!['\'', '"', '\'', '"', '\'']
    } else {
        seq![c]
    }
}

/// The body of a quoted word: each character of the value expanded by
/// `quote_char`.
pub open spec fn quote_body(s: Seq<char>) -> Seq<char>
    decreases s.len(),
{
    if s.len() == 0 {
        Seq::empty()
    } else {
        quote_char(s.first()) + quote_body(s.drop_first())
    }
}

/// The shell-quoted form of a value: the expanded body wrapped in single
/// quotes.
pub open spec fn shell_quote_spec(s: Seq<char>) -> Seq<char> {
    seq!['\''] + quote_body(s) + seq!['\'']
}

/// Where a POSIX shell stands while it scans a word built out of quoted
/// segments.
pub enum ScanState {
    /// Between quoted segments.
    Bare,
    /// Inside a single-quoted segment.
    Single,
    /// Inside a double-quoted segment.
    Double,
}

/// Prefix one literal character to the value of the rest of a word.
pub open spec fn prefix_char(c: char, r: Option<Seq<char>>) -> Option<Seq<char>> {
    match r {
        Some(t) => Some(seq![c] + t),
        None => None,
    }
}

/// How a POSIX-compatible shell reads the rest of a word, standing in state
/// `st`: the characters the word evaluates to, or `None` where the word is
/// not one built purely of quoted segments (an unquoted character, an
/// unterminated quote, or a character that is not literal inside double
/// quotes: `"`, `$`, backquote, backslash).
pub open spec fn shell_eval_in(w: Seq<char>, st: ScanState) -> Option<Seq<char>>
    decreases w.len(),
{
    if w.len() == 0 {
        if st is Bare {
            Some(Seq::empty())
        } else {
            None
        }
    } else {
        let c = w.first();
        let rest = w.drop_first();
        match st {
            ScanState::Bare => {
                if c == '\'' {
                    shell_eval_in(rest, ScanState::Single)
                } else if c == '"' {
                    shell_eval_in(rest, ScanState::Double)
                } else {
                    None
                }
            },
            ScanState::Single => {
                if c == '\'' {
                    shell_eval_in(rest, ScanState::Bare)
                } else {
                    prefix_char(c, shell_eval_in(rest, ScanState::Single))
                }
            },
            ScanState::Double => {
                if c == '"' {
                    shell_eval_in(rest, ScanState::Bare)
                } else if c == '$' || c == '`' || c == '\\' {
                    None
                } else {
                    prefix_char(c, shell_eval_in(rest, ScanState::Double))
                }
            },
        }
    }
}

/// The value a POSIX-compatible shell gives a whole word made of quoted
/// segments.
pub open spec fn shell_eval(w: Seq<char>) -> Option<Seq<char>> {
    shell_eval_in(w, ScanState::Bare)
}

proof fn lemma_eval_body(s: Seq<char>, tail: Seq<char>)
    ensures
        shell_eval_in(quote_body(s) + seq!['\''] + tail, ScanState::Single) == (match shell_eval_in(
            tail,
            ScanState::Bare,
        ) {
            Some(r) => Some(s + r),
            None => None::<Seq<char>>,
        }),
    decreases s.len(),
{
    let w = quote_body(s) + seq!['\''] + tail;
    if s.len() == 0 {
        assert(w =~= seq!['\''] + tail);
        assert(w.first() == '\'');
        assert(w.drop_first() =~= tail);
        match shell_eval_in(tail, ScanState::Bare) {
            Some(r) => {
                assert(s + r =~= r);
            },
            None => {},
        }
    } else {
        let c = s.first();
        let s2 = s.drop_first();
        let w5 = quote_body(s2) + seq!['\''] + tail;
        lemma_eval_body(s2, tail);
        if c == '\'' {
            assert(w =~= seq!['\'', '"', '\'', '"', '\''] + w5);
            let a1 = seq!['"', '\'', '"', '\''] + w5;
            let a2 = seq!['\'', '"', '\''] + w5;
            let a3 = seq!['"', '\''] + w5;
            let a4 = seq!['\''] + w5;
            assert(w.first() == '\'' && w.drop_first() =~= a1);
            assert(a1.first() == '"' && a1.drop_first() =~= a2);
            assert(a2.first() == '\'' && a2.drop_first() =~= a3);
            assert(a3.first() == '"' && a3.drop_first() =~= a4);
            assert(a4.first() == '\'' && a4.drop_first() =~= w5);
            assert(shell_eval_in(w, ScanState::Single) == shell_eval_in(a1, ScanState::Bare));
            assert(shell_eval_in(a1, ScanState::Bare) == shell_eval_in(a2, ScanState::Double));
            assert(shell_eval_in(a2, ScanState::Double) == prefix_char(
                '\'',
                shell_eval_in(a3, ScanState::Double),
            ));
            assert(shell_eval_in(a3, ScanState::Double) == shell_eval_in(a4, ScanState::Bare));
            assert(shell_eval_in(a4, ScanState::Bare) == shell_eval_in(w5, ScanState::Single));
            match shell_eval_in(tail, ScanState::Bare) {
                Some(r) => {
                    assert(seq!['\''] + (s2 + r) =~= s + r);
                },
                None => {},
            }
        } else {
            assert(w =~= seq![c] + w5);
            assert(w.first() == c && w.drop_first() =~= w5);
            assert(shell_eval_in(w, ScanState::Single) == prefix_char(
                c,
                shell_eval_in(w5, ScanState::Single),
            ));
            match shell_eval_in(tail, ScanState::Bare) {
                Some(r) => {
                    assert(seq![c] + (s2 + r) =~= s + r);
                },
                None => {},
            }
        }
    }
}

/// Law (quoting round trip): for every value `s` — empty, holding single
/// quotes, `$`, backquotes or newlines — the quoted form, read as one word
/// by a POSIX-compatible shell, evaluates to exactly `s`.
pub proof fn lemma_shell_quote_round_trip(s: Seq<char>)
    ensures
        shell_eval(shell_quote_spec(s)) == Some(s),
{
    let w = shell_quote_spec(s);
    let w1 = quote_body(s) + seq!['\''] + Seq::<char>::empty();
    assert(w =~= seq!['\''] + w1);
    assert(w.first() == '\'' && w.drop_first() =~= w1);
    lemma_eval_body(s, Seq::<char>::empty());
    assert(shell_eval_in(Seq::<char>::empty(), ScanState::Bare) == Some(Seq::<char>::empty()));
    assert(s + Seq::<char>::empty() =~= s);
}

proof fn lemma_quote_body_push(s: Seq<char>, c: char)
    ensures
        quote_body(s.push(c)) == quote_body(s) + quote_char(c),
    decreases s.len(),
{
    if s.len() == 0 {
        assert(s.push(c).first() == c);
        assert(s.push(c).drop_first() =~= Seq::<char>::empty());
        assert(quote_body(s.push(c).drop_first()) == Seq::<char>::empty());
        assert(quote_body(s.push(c)) == quote_char(c) + Seq::<char>::empty());
        assert(quote_char(c) + Seq::<char>::empty() =~= quote_body(s) + quote_char(c));
    } else {
        assert(s.push(c).first() == s.first());
        assert(s.push(c).drop_first() =~= s.drop_first().push(c));
        lemma_quote_body_push(s.drop_first(), c);
        assert(quote_char(s.first()) + (quote_body(s.drop_first()) + quote_char(c)) =~= (quote_char(
            s.first(),
        ) + quote_body(s.drop_first())) + quote_char(c));
    }
}

/// Quote a value for safe use in a POSIX shell: wrap it in single quotes,
/// carrying each embedded single quote through a double-quoted `'`.
pub fn shell_quote(s: &str) -> (r: String)
    ensures
        r@ == shell_quote_spec(s@),
{
    let n = s.unicode_len();
    let mut out = String::new();
    out.append("'");
    proof {
        reveal_strlit("'");
        assert(out@ =~= seq!['\''] + quote_body(s@.subrange(0, 0)));
    }
    let mut i: usize = 0;
    while i < n
        invariant
            0 <= i <= n,
            n == s@.len(),
            out@ == seq!['\''] + quote_body(s@.subrange(0, i as int)),
        decreases n - i,
    {
        let c = s.get_char(i);
        if c == '\'' {
            out.append("'\"'\"'");
            proof {
                reveal_strlit("'\"'\"'");
                assert("'\"'\"'"@ =~= quote_char('\''));
            }
        } else {
            let piece = s.substring_char(i, i + 1);
            out.append(piece);
            proof {
                assert(piece@ =~= quote_char(c));
            }
        }
        proof {
            lemma_quote_body_push(s@.subrange(0, i as int), s@[i as int]);
            assert(s@.subrange(0, i as int + 1) =~= s@.subrange(0, i as int).push(s@[i as int]));
            assert(out@ =~= seq!['\''] + quote_body(s@.subrange(0, i as int + 1)));
        }
        i += 1;
    }
    out.append("'");
    proof {
        reveal_strlit("'");
        assert(s@.subrange(0, n as int) =~= s@);
        assert(out@ =~= shell_quote_spec(s@));
    }
    out
}

} // verus!
