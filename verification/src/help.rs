//! The text that describes flags to the user, in aligned columns.

use vstd::prelude::*;
use vstd::string::*;
use vstd::utf8::encode_utf8;
use crate::flag::{declared, flag_models, Flag, FlagModel, FlagType};

verus! {

/// The width of a text in a column: the number of bytes that hold it.
pub open spec fn width(s: Seq<char>) -> nat {
    encode_utf8(s).len()
}

/// A run of `n` spaces.
pub open spec fn spaces(n: nat) -> Seq<char> {
    Seq::new(n, |i: int| ' ')
}

/// The parts one after the other, with `sep` between each two.
pub open spec fn joined(parts: Seq<Seq<char>>, sep: Seq<char>) -> Seq<char>
    decreases parts.len(),
{
    if parts.len() == 0 {
        Seq::empty()
    } else if parts.len() == 1 {
        parts[0]
    } else {
        joined(parts.drop_last(), sep) + sep + parts.last()
    }
}

/// Each part with a dash in front.
pub open spec fn dashed(parts: Seq<Seq<char>>) -> Seq<Seq<char>> {
    Seq::new(parts.len(), |i: int| "-"@ + parts[i])
}

/// The greatest width among the labels, and at least `floor`.
pub open spec fn widest(labels: Seq<Seq<char>>, floor: nat) -> nat
    decreases labels.len(),
{
    if labels.len() == 0 {
        floor
    } else {
        let before = widest(labels.drop_last(), floor);
        if width(labels.last()) > before {
            width(labels.last())
        } else {
            before
        }
    }
}

/// No label is wider than the widest, nor is the floor.
pub proof fn lemma_widest(labels: Seq<Seq<char>>, floor: nat)
    ensures
        floor <= widest(labels, floor),
        forall|i: int| 0 <= i < labels.len() ==> width(#[trigger] labels[i]) <= widest(labels, floor),
    decreases labels.len(),
{
    if labels.len() > 0 {
        let front = labels.drop_last();
        lemma_widest(front, floor);
        assert forall|i: int| 0 <= i < labels.len() implies width(#[trigger] labels[i])
            <= widest(labels, floor) by {
            if i < front.len() {
                assert(labels[i] == front[i]);
            }
        }
    }
}

/// How the value that a flag takes is shown.
pub open spec fn value_mark(flag_type: FlagType) -> Seq<char> {
    match flag_type {
        FlagType::Int => "<int>"@,
        FlagType::Float => "<float>"@,
        FlagType::String => "<string>"@,
        FlagType::Bool => ""@,
    }
}

/// The label of a flag: its aliases, its name, and the value it takes.
pub open spec fn flag_label(f: FlagModel) -> Seq<char> {
    if f.aliases.len() == 0 {
        "--"@ + f.name + " "@ + value_mark(f.flag_type)
    } else {
        joined(dashed(f.aliases), ", "@) + ", --"@ + f.name + " "@ + value_mark(f.flag_type)
    }
}

/// The labels of the flags.
pub open spec fn flag_labels(flags: Seq<FlagModel>) -> Seq<Seq<char>> {
    Seq::new(flags.len(), |i: int| flag_label(flags[i]))
}

/// The line for a flag, in a column of width `column`: the label and, where
/// the flag has a description, padding up to the column and the description.
pub open spec fn flag_line(f: FlagModel, column: nat) -> Seq<char> {
    match f.description {
        Some(d) => "\t"@ + flag_label(f) + spaces((column - width(flag_label(f))) as nat)
            + " : "@ + d + "\n"@,
        None => "\t"@ + flag_label(f) + "\n"@,
    }
}

/// The lines for the flags, in order.
pub open spec fn flag_lines(flags: Seq<FlagModel>, column: nat) -> Seq<char>
    decreases flags.len(),
{
    if flags.len() == 0 {
        Seq::empty()
    } else {
        flag_lines(flags.drop_last(), column) + flag_line(flags.last(), column)
    }
}

/// The width of the column of flag labels: that of the widest label, the
/// help flag's among them.
pub open spec fn flag_column(flags: Seq<FlagModel>) -> nat {
    widest(flag_labels(flags), width("-h, --help"@))
}

/// The section of a help text that lists the flags, the help flag last.
pub open spec fn flag_help(flags: Seq<FlagModel>) -> Seq<char> {
    "Flags:\n"@ + flag_lines(flags, flag_column(flags)) + "\t"@ + "-h, --help"@ + spaces(
        (flag_column(flags) - width("-h, --help"@)) as nat,
    ) + " : Show help\n"@
}

/// The number of bytes that hold `s`.
pub fn byte_len(s: &str) -> (n: usize)
    ensures
        n == width(s@),
{
    s.as_bytes().len()
}

/// Appends `n` spaces to `text`.
pub fn pad(text: &mut String, n: usize)
    ensures
        final(text)@ == old(text)@ + spaces(n as nat),
{
    let mut i: usize = 0;
    proof {
        assert(text@ =~= old(text)@ + spaces(0));
    }
    while i < n
        invariant
            0 <= i <= n,
            text@ == old(text)@ + spaces(i as nat),
        decreases n - i,
    {
        text.append(" ");
        proof {
            reveal_strlit(" ");
            assert(text@ =~= old(text)@ + spaces((i + 1) as nat));
        }
        i += 1;
    }
}

/// The names one after the other, each with `lead` in front and `sep`
/// between each two.
pub fn join_names(names: &Vec<String>, lead: &str, sep: &str) -> (r: String)
    ensures
        r@ == joined(Seq::new(names@.len(), |i: int| lead@ + names@[i]@), sep@),
{
    let ghost parts = Seq::new(names@.len(), |i: int| lead@ + names@[i]@);
    let mut r = String::new();
    let mut k: usize = 0;
    proof {
        assert(parts.take(0) =~= Seq::empty());
    }
    while k < names.len()
        invariant
            0 <= k <= names.len(),
            parts == Seq::new(names@.len(), |i: int| lead@ + names@[i]@),
            r@ == joined(parts.take(k as int), sep@),
        decreases names.len() - k,
    {
        let ghost before = r@;
        if k > 0 {
            r.append(sep);
        }
        r.append(lead);
        r.append(names[k].as_str());
        proof {
            let now = parts.take(k + 1);
            assert(now.drop_last() =~= parts.take(k as int));
            assert(now.last() == lead@ + names@[k as int]@);
            if k == 0 {
                assert(before =~= Seq::<char>::empty());
                assert(r@ =~= now[0]);
            } else {
                assert(r@ =~= before + sep@ + now.last());
            }
        }
        k += 1;
    }
    proof {
        assert(parts.take(k as int) =~= parts);
    }
    r
}

/// How the value that a flag of this type takes is shown.
fn value_mark_of(flag_type: FlagType) -> (r: &'static str)
    ensures
        r@ == value_mark(flag_type),
{
    match flag_type {
        FlagType::Int => "<int>",
        FlagType::Float => "<float>",
        FlagType::String => "<string>",
        FlagType::Bool => "",
    }
}

/// The label of a flag.
pub fn flag_label_of(f: &Flag) -> (r: String)
    ensures
        r@ == flag_label(f@),
{
    let mut r = match &f.alias {
        Some(names) => {
            if names.len() == 0 {
                proof {
                    assert(f@.aliases =~= Seq::empty());
                }
                String::from_str("--")
            } else {
                let mut a = join_names(names, "-", ", ");
                proof {
                    assert(dashed(f@.aliases) =~= Seq::new(
                        names@.len(),
                        |i: int| "-"@ + names@[i]@,
                    ));
                }
                a.append(", --");
                a
            }
        },
        None => String::from_str("--"),
    };
    r.append(f.name.as_str());
    r.append(" ");
    r.append(value_mark_of(f.flag_type));
    r
}

/// The width of the column of flag labels.
fn flag_column_of(flags: &Vec<Flag>) -> (r: usize)
    ensures
        r == flag_column(flag_models(flags@)),
{
    let ghost labels = flag_labels(flag_models(flags@));
    let mut column: usize = byte_len("-h, --help");
    let mut i: usize = 0;
    proof {
        assert(labels.take(0) =~= Seq::empty());
    }
    while i < flags.len()
        invariant
            0 <= i <= flags.len(),
            labels == flag_labels(flag_models(flags@)),
            column == widest(labels.take(i as int), width("-h, --help"@)),
        decreases flags.len() - i,
    {
        let label = flag_label_of(&flags[i]);
        let w: usize = byte_len(label.as_str());
        proof {
            let now = labels.take(i + 1);
            assert(now.drop_last() =~= labels.take(i as int));
            assert(now.last() == label@);
        }
        if w > column {
            column = w;
        }
        i += 1;
    }
    proof {
        assert(labels.take(i as int) =~= labels);
    }
    column
}

/// The section of a help text that lists the flags, the help flag last.
pub fn flag_help_text(flags: &Option<Vec<Flag>>) -> (r: String)
    ensures
        r@ == flag_help(declared(*flags)),
{
    let mut text = String::from_str("Flags:\n");
    let help_flag = "-h, --help";
    let mut column: usize = byte_len(help_flag);
    match flags {
        Some(list) => {
            let ghost models = flag_models(list@);
            column = flag_column_of(list);
            let mut i: usize = 0;
            proof {
                assert(models.take(0) =~= Seq::empty());
                assert(text@ =~= "Flags:\n"@ + flag_lines(models.take(0), column as nat));
                lemma_widest(flag_labels(models), width("-h, --help"@));
            }
            while i < list.len()
                invariant
                    0 <= i <= list.len(),
                    models == flag_models(list@),
                    column == flag_column(models),
                    forall|j: int|
                        0 <= j < models.len() ==> width(#[trigger] flag_labels(models)[j])
                            <= column,
                    text@ == "Flags:\n"@ + flag_lines(models.take(i as int), column as nat),
                decreases list.len() - i,
            {
                let ghost before = text@;
                let f = &list[i];
                let label = flag_label_of(f);
                text.append("\t");
                text.append(label.as_str());
                proof {
                    assert(flag_labels(models)[i as int] == label@);
                }
                match &f.description {
                    Some(d) => {
                        pad(&mut text, column - byte_len(label.as_str()));
                        text.append(" : ");
                        text.append(d.as_str());
                        text.append("\n");
                    },
                    None => {
                        text.append("\n");
                    },
                }
                proof {
                    let now = models.take(i + 1);
                    assert(now.drop_last() =~= models.take(i as int));
                    assert(now.last() == f@);
                    assert(text@ =~= before + flag_line(f@, column as nat));
                    assert(text@ =~= "Flags:\n"@ + flag_lines(now, column as nat));
                }
                i += 1;
            }
            proof {
                assert(models.take(i as int) =~= models);
            }
        },
        None => {
            proof {
                let none = Seq::<FlagModel>::empty();
                assert(flag_labels(none) =~= Seq::empty());
                assert(text@ =~= "Flags:\n"@ + flag_lines(none, column as nat));
            }
        },
    }
    let ghost lines = text@;
    text.append("\t");
    text.append(help_flag);
    pad(&mut text, column - byte_len(help_flag));
    text.append(" : Show help\n");
    proof {
        assert(text@ =~= lines + "\t"@ + "-h, --help"@ + spaces(
            (column - width("-h, --help"@)) as nat,
        ) + " : Show help\n"@);
    }
    text
}

} // verus!
