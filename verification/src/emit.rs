use vstd::prelude::*;
use crate::codec::b64_decode;
use crate::codec::b64_decode_of;
use crate::codec::utf8_to_string;
use crate::ident::is_valid_var_name;
use crate::ident::valid_var_name;
use crate::quote::shell_quote;
use crate::quote::shell_quote_spec;
use crate::text::first_eq;
use crate::text::split_first_eq;
use crate::text::split_into_lines;
use crate::text::split_lines;
use crate::text::trim;
use crate::text::trim_spec;
use vstd::utf8::decode_utf8;
use vstd::utf8::valid_utf8;

verus! {

/// What becomes of one raw line of the bundle.
pub enum LineOutcome {
    /// Blank, holding no `=`, or a value whose bytes are not UTF-8 text:
    /// passed over without a word.
    Skip,
    /// The part before the first `=` is not a valid variable name.
    BadName { name: Seq<char> },
    /// The value is not valid base64; the decoder's error text is kept.
    BadEncoding { name: Seq<char>, message: Seq<char> },
    /// An accepted record: a name and its decoded plain-text value.
    Accept { name: Seq<char>, value: Seq<char> },
}

/// The decision for one raw line: trim it, skip it if it is blank or has no
/// `=`, split it at the first `=`, and hold the name and the value each to
/// its gate.
pub open spec fn line_outcome(raw: Seq<char>) -> LineOutcome {
    let t = trim_spec(raw);
    if t.len() == 0 {
        LineOutcome::Skip
    } else if first_eq(t) == t.len() {
        LineOutcome::Skip
    } else {
        let name = t.subrange(0, first_eq(t));
        let encoded = t.subrange(first_eq(t) + 1, t.len() as int);
        if !valid_var_name(name) {
            LineOutcome::BadName { name }
        } else {
            match b64_decode_of(encoded) {
                Err(m) => LineOutcome::BadEncoding { name, message: m },
                Ok(bytes) => {
                    if valid_utf8(bytes) {
                        LineOutcome::Accept { name, value: decode_utf8(bytes) }
                    } else {
                        LineOutcome::Skip
                    }
                },
            }
        }
    }
}

/// The export statement for an accepted record.
pub open spec fn export_line(name: Seq<char>, value: Seq<char>) -> Seq<char> {
    "export "@ + name + "="@ + shell_quote_spec(value)
}

/// The diagnostic for a rejected variable name.
pub open spec fn bad_name_diag(name: Seq<char>) -> Seq<char> {
    "skipping invalid var name: "@ + name
}

/// The diagnostic for a value that is not valid base64.
pub open spec fn bad_encoding_diag(name: Seq<char>, message: Seq<char>) -> Seq<char> {
    "failed to decode "@ + name + ": "@ + message
}

/// Assemble the export statement for an accepted record from its name and
/// its decoded plain-text value.
pub fn export_statement(name: &str, value: &str) -> (r: String)
    ensures
        r@ == export_line(name@, value@),
{
    let mut e = String::new();
    e.append("export ");
    e.append(name);
    e.append("=");
    let q = shell_quote(value);
    e.append(q.as_str());
    proof {
        assert(e@ =~= export_line(name@, value@));
    }
    e
}

/// What handling one line hands back: nothing, an export statement, or a
/// diagnostic.
pub enum LineResult {
    /// The line was passed over without a word.
    Skipped,
    /// The record was accepted; the export statement to print.
    Accepted(String),
    /// The record was rejected; the diagnostic to print.
    Rejected(String),
}

/// Handle one raw line of the bundle: the export statement for an accepted
/// record, the diagnostic for a rejected one, and nothing for a line the
/// pipeline skips.
pub fn handle_line(line: &str) -> (r: LineResult)
    ensures
        match line_outcome(line@) {
            LineOutcome::Skip => r is Skipped,
            LineOutcome::BadName { name } => r matches LineResult::Rejected(d) && d@
                == bad_name_diag(name),
            LineOutcome::BadEncoding { name, message } => r matches LineResult::Rejected(d) && d@
                == bad_encoding_diag(name, message),
            LineOutcome::Accept { name, value } => r matches LineResult::Accepted(e) && e@
                == export_line(name, value),
        },
{
    let t = trim(line);
    proof {
        crate::text::lemma_first_eq(t@);
    }
    if t.is_empty() {
        return LineResult::Skipped;
    }
    match split_first_eq(t) {
        None => LineResult::Skipped,
        Some((name, encoded)) => {
            if !is_valid_var_name(name) {
                let mut d = String::new();
                d.append("skipping invalid var name: ");
                d.append(name);
                proof {
                    assert(d@ =~= bad_name_diag(name@));
                }
                LineResult::Rejected(d)
            } else {
                match b64_decode(encoded) {
                    Err(msg) => {
                        let mut d = String::new();
                        d.append("failed to decode ");
                        d.append(name);
                        d.append(": ");
                        d.append(msg.as_str());
                        proof {
                            assert(d@ =~= bad_encoding_diag(name@, msg@));
                        }
                        LineResult::Rejected(d)
                    },
                    Ok(bytes) => match utf8_to_string(bytes) {
                        None => LineResult::Skipped,
                        Some(value) => LineResult::Accepted(
                            export_statement(name, value.as_str()),
                        ),
                    },
                }
            }
        },
    }
}

/// The export statements a sequence of raw lines yields, in source order.
pub open spec fn exports_of(ls: Seq<Seq<char>>) -> Seq<Seq<char>>
    decreases ls.len(),
{
    if ls.len() == 0 {
        Seq::empty()
    } else {
        (match line_outcome(ls.first()) {
            LineOutcome::Accept { name, value } => seq![export_line(name, value)],
            _ => Seq::empty(),
        }) + exports_of(ls.drop_first())
    }
}

/// The diagnostics a sequence of raw lines yields, in source order.
pub open spec fn diags_of(ls: Seq<Seq<char>>) -> Seq<Seq<char>>
    decreases ls.len(),
{
    if ls.len() == 0 {
        Seq::empty()
    } else {
        (match line_outcome(ls.first()) {
            LineOutcome::BadName { name } => seq![bad_name_diag(name)],
            LineOutcome::BadEncoding { name, message } => seq![bad_encoding_diag(name, message)],
            _ => Seq::empty(),
        }) + diags_of(ls.drop_first())
    }
}

proof fn lemma_outputs_push(ls: Seq<Seq<char>>, l: Seq<char>)
    ensures
        exports_of(ls.push(l)) == exports_of(ls) + (match line_outcome(l) {
            LineOutcome::Accept { name, value } => seq![export_line(name, value)],
            _ => Seq::<Seq<char>>::empty(),
        }),
        diags_of(ls.push(l)) == diags_of(ls) + (match line_outcome(l) {
            LineOutcome::BadName { name } => seq![bad_name_diag(name)],
            LineOutcome::BadEncoding { name, message } => seq![bad_encoding_diag(name, message)],
            _ => Seq::<Seq<char>>::empty(),
        }),
    decreases ls.len(),
{
    let ex = (match line_outcome(l) {
        LineOutcome::Accept { name, value } => seq![export_line(name, value)],
        _ => Seq::<Seq<char>>::empty(),
    });
    let dg = (match line_outcome(l) {
        LineOutcome::BadName { name } => seq![bad_name_diag(name)],
        LineOutcome::BadEncoding { name, message } => seq![bad_encoding_diag(name, message)],
        _ => Seq::<Seq<char>>::empty(),
    });
    if ls.len() == 0 {
        assert(ls.push(l).first() == l);
        assert(ls.push(l).drop_first() =~= Seq::<Seq<char>>::empty());
        assert(exports_of(Seq::<Seq<char>>::empty()) == Seq::<Seq<char>>::empty());
        assert(diags_of(Seq::<Seq<char>>::empty()) == Seq::<Seq<char>>::empty());
        assert(exports_of(ls.push(l)) =~= exports_of(ls) + ex);
        assert(diags_of(ls.push(l)) =~= diags_of(ls) + dg);
    } else {
        assert(ls.push(l).first() == ls.first());
        assert(ls.push(l).drop_first() =~= ls.drop_first().push(l));
        lemma_outputs_push(ls.drop_first(), l);
        assert(exports_of(ls.push(l)) =~= exports_of(ls) + ex);
        assert(diags_of(ls.push(l)) =~= diags_of(ls) + dg);
    }
}

/// Decode a whole bundle: the export statements and the diagnostics it
/// yields, each stream in source order. One record's failure never touches
/// another record.
pub fn process_bundle(bundle: &str) -> (r: (Vec<String>, Vec<String>))
    ensures
        r.0.deep_view() == exports_of(split_lines(bundle@)),
        r.1.deep_view() == diags_of(split_lines(bundle@)),
{
    let lines = split_into_lines(bundle);
    let mut exports: Vec<String> = Vec::new();
    let mut diags: Vec<String> = Vec::new();
    let mut i: usize = 0;
    proof {
        assert(lines.deep_view().subrange(0, 0) =~= Seq::<Seq<char>>::empty());
        assert(exports.deep_view() =~= exports_of(lines.deep_view().subrange(0, 0)));
        assert(diags.deep_view() =~= diags_of(lines.deep_view().subrange(0, 0)));
    }
    while i < lines.len()
        invariant
            0 <= i <= lines@.len(),
            lines.deep_view() == split_lines(bundle@),
            exports.deep_view() == exports_of(lines.deep_view().subrange(0, i as int)),
            diags.deep_view() == diags_of(lines.deep_view().subrange(0, i as int)),
        decreases lines@.len() - i,
    {
        proof {
            lemma_outputs_push(
                lines.deep_view().subrange(0, i as int),
                lines.deep_view()[i as int],
            );
            assert(lines.deep_view().subrange(0, i as int + 1) =~= lines.deep_view().subrange(
                0,
                i as int,
            ).push(lines.deep_view()[i as int]));
        }
        let line: &String = &lines[i];
        let res = handle_line(line.as_str());
        match res {
            LineResult::Skipped => {
                proof {
                    assert(exports.deep_view() =~= exports_of(
                        lines.deep_view().subrange(0, i as int + 1),
                    ));
                    assert(diags.deep_view() =~= diags_of(
                        lines.deep_view().subrange(0, i as int + 1),
                    ));
                }
            },
            LineResult::Accepted(e) => {
                exports.push(e);
                proof {
                    assert(exports.deep_view() =~= exports_of(
                        lines.deep_view().subrange(0, i as int + 1),
                    ));
                    assert(diags.deep_view() =~= diags_of(
                        lines.deep_view().subrange(0, i as int + 1),
                    ));
                }
            },
            LineResult::Rejected(d) => {
                diags.push(d);
                proof {
                    assert(exports.deep_view() =~= exports_of(
                        lines.deep_view().subrange(0, i as int + 1),
                    ));
                    assert(diags.deep_view() =~= diags_of(
                        lines.deep_view().subrange(0, i as int + 1),
                    ));
                }
            },
        }
        i += 1;
    }
    proof {
        assert(lines.deep_view().subrange(0, lines.deep_view().len() as int)
            =~= lines.deep_view());
    }
    (exports, diags)
}

/// Law (independent records): lines are handled one by one — the output of
/// a sequence of lines is the output of its front part followed by the
/// output of its back part, so one record's failure never aborts, reorders
/// or otherwise touches another record.
pub proof fn lemma_records_independent(ls1: Seq<Seq<char>>, ls2: Seq<Seq<char>>)
    ensures
        exports_of(ls1 + ls2) == exports_of(ls1) + exports_of(ls2),
        diags_of(ls1 + ls2) == diags_of(ls1) + diags_of(ls2),
    decreases ls1.len(),
{
    if ls1.len() == 0 {
        assert(ls1 + ls2 =~= ls2);
        assert(exports_of(ls1) == Seq::<Seq<char>>::empty());
        assert(diags_of(ls1) == Seq::<Seq<char>>::empty());
        assert(exports_of(ls1) + exports_of(ls2) =~= exports_of(ls2));
        assert(diags_of(ls1) + diags_of(ls2) =~= diags_of(ls2));
    } else {
        assert((ls1 + ls2).len() != 0);
        assert((ls1 + ls2).first() == ls1.first());
        assert((ls1 + ls2).drop_first() =~= ls1.drop_first() + ls2);
        lemma_records_independent(ls1.drop_first(), ls2);
        assert(exports_of(ls1 + ls2) =~= exports_of(ls1) + exports_of(ls2));
        assert(diags_of(ls1 + ls2) =~= diags_of(ls1) + diags_of(ls2));
    }
}

/// Law (idempotence): decoding is a pure function of the bundle text — two
/// runs over equal text yield the same export statements and the same
/// diagnostics. Every stage, the base64 decoder included, is modeled as a
/// function of its input alone.
pub proof fn lemma_decode_deterministic(b1: Seq<char>, b2: Seq<char>)
    requires
        b1 == b2,
    ensures
        exports_of(split_lines(b1)) == exports_of(split_lines(b2)),
        diags_of(split_lines(b1)) == diags_of(split_lines(b2)),
{
}

/// Law (blank bundle): where every line is blank — nothing but whitespace —
/// the bundle yields no export statements and no diagnostics.
pub proof fn lemma_blank_lines_yield_nothing(ls: Seq<Seq<char>>)
    requires
        forall|i: int| 0 <= i < ls.len() ==> trim_spec(#[trigger] ls[i]).len() == 0,
    ensures
        exports_of(ls) == Seq::<Seq<char>>::empty(),
        diags_of(ls) == Seq::<Seq<char>>::empty(),
    decreases ls.len(),
{
    if ls.len() == 0 {
    } else {
        assert(trim_spec(ls.first()).len() == 0);
        assert forall|i: int| 0 <= i < ls.drop_first().len() implies trim_spec(
            #[trigger] ls.drop_first()[i],
        ).len() == 0 by {
            assert(ls.drop_first()[i] == ls[i + 1]);
        }
        lemma_blank_lines_yield_nothing(ls.drop_first());
        assert(exports_of(ls) =~= Seq::<Seq<char>>::empty());
        assert(diags_of(ls) =~= Seq::<Seq<char>>::empty());
    }
}

} // verus!
