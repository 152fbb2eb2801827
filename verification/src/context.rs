//! The context that a handler is given: the positional arguments that are
//! left once the declared flags are taken out, and what each flag resolved to.

use vstd::prelude::*;
use vstd::string::*;
use crate::error::FlagError;
use crate::flag::{
    declared, flag_declared, flag_models, unique_flag_names, lemma_locate, resolution_of, Flag, FlagModel, FlagType, FlagValue,
    FlagValueModel, Resolution,
};
use crate::text::{same_text, texts};

verus! {

/// A flag's name with what the flag resolved to.
pub type Entry = (Seq<char>, Resolution);

/// The tokens that are left and the entries that were recorded.
pub struct Parsed {
    pub tokens: Seq<Seq<char>>,
    pub entries: Seq<Entry>,
}

/// The token that the first occurrence of `f` takes as its value: the one
/// that follows it, unless `f` takes no value or stands last.
pub open spec fn following(f: FlagModel, tokens: Seq<Seq<char>>) -> Option<Seq<char>> {
    let i = f.locate(tokens);
    if f.flag_type != FlagType::Bool && i + 1 < tokens.len() {
        Some(tokens[i + 1])
    } else {
        None
    }
}

/// The tokens without the first occurrence of `f` and the value it takes.
pub open spec fn without_first(f: FlagModel, tokens: Seq<Seq<char>>) -> Seq<Seq<char>> {
    let i = f.locate(tokens);
    if following(f, tokens) is Some {
        tokens.remove(i).remove(i)
    } else {
        tokens.remove(i)
    }
}

/// Takes out every occurrence of `f`, first to last, each with its value.
pub open spec fn take_all(f: FlagModel, tokens: Seq<Seq<char>>) -> Parsed
    decreases tokens.len(),
{
    if f.occurs_in(tokens) {
        let rest = take_all(f, without_first(f, tokens));
        Parsed {
            tokens: rest.tokens,
            entries: seq![(f.name, f.read(following(f, tokens)))] + rest.entries,
        }
    } else {
        Parsed { tokens, entries: Seq::empty() }
    }
}

/// Resolves one flag against the tokens.
///
/// A flag that does not occur is recorded as not found. One that may be
/// given once has its first occurrence taken out and recorded; one that may
/// be given more than once has all of them taken out and recorded in order.
pub open spec fn resolve_flag(f: FlagModel, tokens: Seq<Seq<char>>) -> Parsed {
    if !f.occurs_in(tokens) {
        Parsed { tokens, entries: seq![(f.name, Err(FlagError::NotFound))] }
    } else if f.multiple {
        take_all(f, tokens)
    } else {
        Parsed {
            tokens: without_first(f, tokens),
            entries: seq![(f.name, f.read(following(f, tokens)))],
        }
    }
}

/// Resolves the flags one after the other, each against the tokens that the
/// flags before it left.
pub open spec fn resolve_flags(flags: Seq<FlagModel>, tokens: Seq<Seq<char>>) -> Parsed
    decreases flags.len(),
{
    if flags.len() == 0 {
        Parsed { tokens, entries: Seq::empty() }
    } else {
        let before = resolve_flags(flags.drop_last(), tokens);
        let step = resolve_flag(flags.last(), before.tokens);
        Parsed { tokens: step.tokens, entries: before.entries + step.entries }
    }
}

/// Index of the first entry under `name`, or the number of entries where
/// there is none.
pub open spec fn entry_index(entries: Seq<Entry>, name: Seq<char>) -> int
    decreases entries.len(),
{
    if entries.len() == 0 {
        0
    } else if entries[0].0 == name {
        0
    } else {
        1 + entry_index(entries.drop_first(), name)
    }
}

/// What the flag `name` resolved to: the first entry under that name, and
/// `Undefined` where no flag of that name was declared.
pub open spec fn lookup(entries: Seq<Entry>, name: Seq<char>) -> Resolution {
    let i = entry_index(entries, name);
    if i < entries.len() {
        entries[i].1
    } else {
        Err(FlagError::Undefined)
    }
}

/// All that the flag `name` resolved to, in the order of the entries.
pub open spec fn lookup_all(entries: Seq<Entry>, name: Seq<char>) -> Seq<Resolution>
    decreases entries.len(),
{
    if entries.len() == 0 {
        Seq::empty()
    } else {
        let front = lookup_all(entries.drop_last(), name);
        if entries.last().0 == name {
            front.push(entries.last().1)
        } else {
            front
        }
    }
}

/// All that the flag `name` resolved to, and `Undefined` alone where no flag
/// of that name was declared.
pub open spec fn resolutions(entries: Seq<Entry>, name: Seq<char>) -> Seq<Resolution> {
    let found = lookup_all(entries, name);
    if found.len() == 0 {
        seq![Err(FlagError::Undefined)]
    } else {
        found
    }
}

/// The models of a sequence of text results.
pub open spec fn text_results(v: Seq<Result<String, FlagError>>) -> Seq<
    Result<Seq<char>, FlagError>,
> {
    Seq::new(v.len(), |i: int| text_result(v[i]))
}

/// The models of a sequence of resolutions.
pub open spec fn resolutions_of(v: Seq<Result<FlagValue, FlagError>>) -> Seq<Resolution> {
    Seq::new(v.len(), |i: int| resolution_of(v[i]))
}

/// A resolution read as a truth value: true only for a flag that is set.
pub open spec fn as_bool(r: Resolution) -> bool {
    match r {
        Ok(FlagValueModel::Bool(b)) => b,
        _ => false,
    }
}

/// A resolution read as text.
pub open spec fn as_string(r: Resolution) -> Result<Seq<char>, FlagError> {
    match r {
        Ok(FlagValueModel::String(s)) => Ok(s),
        Ok(_) => Err(FlagError::TypeError),
        Err(e) => Err(e),
    }
}

/// A resolution read as an integer.
pub open spec fn as_int(r: Resolution) -> Result<isize, FlagError> {
    match r {
        Ok(FlagValueModel::Int(i)) => Ok(i),
        Ok(_) => Err(FlagError::TypeError),
        Err(e) => Err(e),
    }
}

/// A resolution read as a floating-point literal.
pub open spec fn as_float(r: Resolution) -> Result<Seq<char>, FlagError> {
    match r {
        Ok(FlagValueModel::Float(s)) => Ok(s),
        Ok(_) => Err(FlagError::TypeError),
        Err(e) => Err(e),
    }
}

/// The model of a text result.
pub open spec fn text_result(r: Result<String, FlagError>) -> Result<Seq<char>, FlagError> {
    match r {
        Ok(s) => Ok(s@),
        Err(e) => Err(e),
    }
}

/// `entry_index` is in bounds, points at an entry under `name`, and no entry
/// before it is under `name`.
pub proof fn lemma_entry_index(entries: Seq<Entry>, name: Seq<char>)
    ensures
        0 <= entry_index(entries, name) <= entries.len(),
        entry_index(entries, name) < entries.len() ==> entries[entry_index(entries, name)].0
            == name,
        forall|j: int| 0 <= j < entry_index(entries, name) ==> (#[trigger] entries[j]).0 != name,
    decreases entries.len(),
{
    if entries.len() == 0 {
    } else if entries[0].0 == name {
    } else {
        let rest = entries.drop_first();
        lemma_entry_index(rest, name);
        let p = entry_index(rest, name);
        assert forall|j: int| 0 <= j < 1 + p implies (#[trigger] entries[j]).0 != name by {
            if j > 0 {
                assert(entries[j] == rest[j - 1]);
            }
        }
        if p < rest.len() {
            assert(entries[1 + p] == rest[p]);
        }
    }
}

/// Every token of `a` is a token of `b`.
pub open spec fn drawn_from(a: Seq<Seq<char>>, b: Seq<Seq<char>>) -> bool {
    forall|i: int| 0 <= i < a.len() ==> b.contains(#[trigger] a[i])
}

/// Every entry is under `name`.
pub open spec fn all_under(entries: Seq<Entry>, name: Seq<char>) -> bool {
    forall|i: int| 0 <= i < entries.len() ==> (#[trigger] entries[i]).0 == name
}

/// No entry is under `name`.
pub open spec fn none_under(entries: Seq<Entry>, name: Seq<char>) -> bool {
    forall|i: int| 0 <= i < entries.len() ==> (#[trigger] entries[i]).0 != name
}

/// Taking the first occurrence of a flag out leaves tokens that were there.
proof fn lemma_without_first_drawn(f: FlagModel, tokens: Seq<Seq<char>>)
    requires
        f.occurs_in(tokens),
    ensures
        drawn_from(without_first(f, tokens), tokens),
        without_first(f, tokens).len() < tokens.len(),
{
    lemma_locate(f, tokens);
    let i = f.locate(tokens);
    let once = tokens.remove(i);
    assert forall|j: int| 0 <= j < once.len() implies tokens.contains(#[trigger] once[j]) by {
        if j < i {
            assert(once[j] == tokens[j]);
        } else {
            assert(once[j] == tokens[j + 1]);
        }
    }
    if following(f, tokens) is Some {
        let twice = once.remove(i);
        assert forall|j: int| 0 <= j < twice.len() implies tokens.contains(
            #[trigger] twice[j],
        ) by {
            if j < i {
                assert(twice[j] == once[j]);
            } else {
                assert(twice[j] == once[j + 1]);
            }
        }
    }
}

/// Taking every occurrence of a flag out leaves tokens that were there, and
/// records entries under the flag's name only.
proof fn lemma_take_all(f: FlagModel, tokens: Seq<Seq<char>>)
    ensures
        drawn_from(take_all(f, tokens).tokens, tokens),
        all_under(take_all(f, tokens).entries, f.name),
    decreases tokens.len(),
{
    lemma_locate(f, tokens);
    if f.occurs_in(tokens) {
        let next = without_first(f, tokens);
        lemma_without_first_drawn(f, tokens);
        lemma_take_all(f, next);
        let rest = take_all(f, next);
        assert forall|j: int| 0 <= j < rest.tokens.len() implies tokens.contains(
            #[trigger] rest.tokens[j],
        ) by {
            assert(next.contains(rest.tokens[j]));
        }
        let entries = take_all(f, tokens).entries;
        assert forall|j: int| 0 <= j < entries.len() implies (#[trigger] entries[j]).0
            == f.name by {
            if j > 0 {
                assert(entries[j] == rest.entries[j - 1]);
            }
        }
    } else {
        assert forall|j: int| 0 <= j < tokens.len() implies tokens.contains(
            #[trigger] tokens[j],
        ) by {}
    }
}

/// Resolving a flag leaves tokens that were there, and records at least one
/// entry, all under the flag's name.
pub proof fn lemma_resolve_flag(f: FlagModel, tokens: Seq<Seq<char>>)
    ensures
        drawn_from(resolve_flag(f, tokens).tokens, tokens),
        all_under(resolve_flag(f, tokens).entries, f.name),
        resolve_flag(f, tokens).entries.len() > 0,
{
    lemma_locate(f, tokens);
    if !f.occurs_in(tokens) {
        assert forall|j: int| 0 <= j < tokens.len() implies tokens.contains(
            #[trigger] tokens[j],
        ) by {}
    } else if f.multiple {
        lemma_take_all(f, tokens);
    } else {
        lemma_without_first_drawn(f, tokens);
    }
}

/// A flag that no token names is named by no token drawn from them.
proof fn lemma_absent_stays_absent(f: FlagModel, a: Seq<Seq<char>>, b: Seq<Seq<char>>)
    requires
        drawn_from(a, b),
        !f.occurs_in(b),
    ensures
        !f.occurs_in(a),
{
    lemma_locate(f, a);
    lemma_locate(f, b);
    if f.occurs_in(a) {
        let t = a[f.locate(a)];
        assert(b.contains(t));
        let j = choose|j: int| 0 <= j < b.len() && b[j] == t;
        assert(f.matches(b[j]));
    }
}

/// Resolving flags leaves tokens that were there, and records entries under
/// the names of those flags only.
pub proof fn lemma_resolve_flags(flags: Seq<FlagModel>, tokens: Seq<Seq<char>>)
    ensures
        drawn_from(resolve_flags(flags, tokens).tokens, tokens),
        forall|i: int|
            0 <= i < resolve_flags(flags, tokens).entries.len() ==> flag_declared(
                flags,
                (#[trigger] resolve_flags(flags, tokens).entries[i]).0,
            ),
    decreases flags.len(),
{
    if flags.len() == 0 {
        assert forall|j: int| 0 <= j < tokens.len() implies tokens.contains(
            #[trigger] tokens[j],
        ) by {}
    } else {
        let front = flags.drop_last();
        lemma_resolve_flags(front, tokens);
        let before = resolve_flags(front, tokens);
        lemma_resolve_flag(flags.last(), before.tokens);
        let step = resolve_flag(flags.last(), before.tokens);
        assert forall|j: int| 0 <= j < step.tokens.len() implies tokens.contains(
            #[trigger] step.tokens[j],
        ) by {
            assert(before.tokens.contains(step.tokens[j]));
        }
        let entries = resolve_flags(flags, tokens).entries;
        assert forall|i: int| 0 <= i < entries.len() implies flag_declared(
            flags,
            (#[trigger] entries[i]).0,
        ) by {
            if i < before.entries.len() {
                assert(entries[i] == before.entries[i]);
                let j = choose|j: int|
                    0 <= j < front.len() && (#[trigger] front[j]).name == entries[i].0;
                assert(flags[j] == front[j]);
            } else {
                assert(entries[i] == step.entries[i - before.entries.len()]);
                assert(flags[flags.len() - 1].name == entries[i].0);
            }
        }
    }
}

/// The first entry under a name stays the first when entries are added
/// after it.
pub proof fn lemma_lookup_prefix(a: Seq<Entry>, b: Seq<Entry>, name: Seq<char>)
    requires
        entry_index(a, name) < a.len(),
    ensures
        lookup(a + b, name) == lookup(a, name),
{
    lemma_entry_index(a, name);
    lemma_entry_index(a + b, name);
    let p = entry_index(a, name);
    let q = entry_index(a + b, name);
    assert((a + b)[p] == a[p]);
    if q < p {
        assert((a + b)[q] == a[q]);
    }
}

/// Where no entry of `a` is under the name, the lookup goes on in `b`.
pub proof fn lemma_lookup_suffix(a: Seq<Entry>, b: Seq<Entry>, name: Seq<char>)
    requires
        none_under(a, name),
    ensures
        lookup(a + b, name) == lookup(b, name),
{
    lemma_entry_index(a + b, name);
    lemma_entry_index(b, name);
    let p = entry_index(b, name);
    let q = entry_index(a + b, name);
    if q < a.len() {
        assert((a + b)[q] == a[q]);
    }
    if p < b.len() {
        assert((a + b)[a.len() + p] == b[p]);
    }
    if q < (a + b).len() {
        assert((a + b)[q] == b[q - a.len()]);
    }
    assert forall|j: int| a.len() <= j < a.len() + p implies (#[trigger] (a + b)[j]).0
        != name by {
        assert((a + b)[j] == b[j - a.len()]);
    }
}

/// A declared flag that no token names resolves to `NotFound`, whatever
/// else is declared and given, where no two flags have the same name.
pub proof fn lemma_absent_flag_is_not_found(
    flags: Seq<FlagModel>,
    tokens: Seq<Seq<char>>,
    k: int,
)
    requires
        unique_flag_names(flags),
        0 <= k < flags.len(),
        !flags[k].occurs_in(tokens),
    ensures
        lookup(resolve_flags(flags, tokens).entries, flags[k].name) == Err::<
            FlagValueModel,
            FlagError,
        >(FlagError::NotFound),
    decreases flags.len(),
{
    let f = flags[k];
    let front = flags.drop_last();
    let before = resolve_flags(front, tokens);
    let step = resolve_flag(flags.last(), before.tokens);
    lemma_resolve_flags(front, tokens);
    lemma_resolve_flag(flags.last(), before.tokens);
    if k == flags.len() - 1 {
        lemma_absent_stays_absent(f, before.tokens, tokens);
        assert forall|i: int| 0 <= i < before.entries.len() implies (
        #[trigger] before.entries[i]).0 != f.name by {
            let j = choose|j: int|
                0 <= j < front.len() && (#[trigger] front[j]).name == before.entries[i].0;
            assert(front[j] == flags[j]);
        }
        lemma_lookup_suffix(before.entries, step.entries, f.name);
    } else {
        assert forall|i: int, j: int| 0 <= i < j < front.len() implies (#[trigger] front[i]).name
            != (#[trigger] front[j]).name by {
            assert(front[i] == flags[i]);
            assert(front[j] == flags[j]);
        }
        assert(front[k] == flags[k]);
        lemma_absent_flag_is_not_found(front, tokens, k);
        lemma_entry_index(before.entries, f.name);
        lemma_lookup_prefix(before.entries, step.entries, f.name);
    }
}

/// A declared flag without a value that no token names reads as false: its
/// absence is no error.
pub proof fn lemma_absent_bool_flag_is_false(
    flags: Seq<FlagModel>,
    tokens: Seq<Seq<char>>,
    k: int,
)
    requires
        unique_flag_names(flags),
        0 <= k < flags.len(),
        flags[k].flag_type == FlagType::Bool,
        !flags[k].occurs_in(tokens),
    ensures
        !as_bool(lookup(resolve_flags(flags, tokens).entries, flags[k].name)),
{
    lemma_absent_flag_is_not_found(flags, tokens, k);
}

/// Looking a flag up gives the first of all that it resolved to.
pub proof fn lemma_lookup_is_first(entries: Seq<Entry>, name: Seq<char>)
    ensures
        lookup(entries, name) == resolutions(entries, name)[0],
        lookup_all(entries, name).len() == 0 <==> none_under(entries, name),
    decreases entries.len(),
{
    lemma_entry_index(entries, name);
    if entries.len() > 0 {
        let front = entries.drop_last();
        lemma_lookup_is_first(front, name);
        lemma_entry_index(front, name);
        assert(entries =~= front + seq![entries.last()]);
        if none_under(front, name) {
            lemma_lookup_suffix(front, seq![entries.last()], name);
            if entries.last().0 != name {
                assert forall|i: int| 0 <= i < entries.len() implies (#[trigger] entries[i]).0
                    != name by {
                    if i < front.len() {
                        assert(entries[i] == front[i]);
                    }
                }
            } else {
                assert(entries[entries.len() - 1].0 == name);
            }
        } else {
            let i = choose|i: int| 0 <= i < front.len() && (#[trigger] front[i]).0 == name;
            assert(entries[i] == front[i]);
            lemma_lookup_prefix(front, seq![entries.last()], name);
        }
    }
}

/// A flag that takes a value and stands last resolves to `ArgumentError`.
pub proof fn lemma_flag_without_value(f: FlagModel, tokens: Seq<Seq<char>>)
    requires
        f.flag_type != FlagType::Bool,
        !f.multiple,
        f.occurs_in(tokens),
        f.locate(tokens) == tokens.len() - 1,
    ensures
        resolve_flag(f, tokens).entries == seq![
            (f.name, Err::<FlagValueModel, FlagError>(FlagError::ArgumentError)),
        ],
        resolve_flag(f, tokens).tokens == tokens.drop_last(),
{
    assert(tokens.remove(tokens.len() - 1) =~= tokens.drop_last());
}

/// A flag's own name and each of its aliases set a flag without a value
/// alike: either way it resolves to true and the token is taken.
pub proof fn lemma_alias_is_equivalent(f: FlagModel, k: int)
    requires
        f.flag_type == FlagType::Bool,
        0 <= k < f.aliases.len(),
    ensures
        f.matches(f.long_form()),
        f.matches(f.short_form(k)),
        resolve_flag(f, seq![f.long_form()]) == resolve_flag(f, seq![f.short_form(k)]),
        resolve_flag(f, seq![f.long_form()]).tokens == Seq::<Seq<char>>::empty(),
        lookup(resolve_flag(f, seq![f.long_form()]).entries, f.name) == Ok::<
            FlagValueModel,
            FlagError,
        >(FlagValueModel::Bool(true)),
{
    let by_name = seq![f.long_form()];
    let by_alias = seq![f.short_form(k)];
    lemma_locate(f, by_name);
    lemma_locate(f, by_alias);
    assert(f.matches(by_name[0]));
    assert(f.matches(by_alias[0]));
    assert(by_name.remove(0) =~= Seq::<Seq<char>>::empty());
    assert(by_alias.remove(0) =~= Seq::<Seq<char>>::empty());
    let none = Seq::<Seq<char>>::empty();
    lemma_locate(f, none);
    if f.multiple {
        assert(take_all(f, none).entries =~= Seq::<Entry>::empty());
        assert(take_all(f, by_name).entries =~= seq![(f.name, f.read(None))]);
        assert(take_all(f, by_alias).entries =~= seq![(f.name, f.read(None))]);
    }
    let entries = resolve_flag(f, by_name).entries;
    assert(entries =~= seq![(f.name, f.read(None))]);
    lemma_entry_index(entries, f.name);
}

/// The context as a mathematical value.
pub struct ContextModel {
    pub args: Seq<Seq<char>>,
    pub entries: Seq<Entry>,
    pub help_text: Seq<char>,
}

/// The context that the tokens give under the declared flags.
pub open spec fn context_of(
    tokens: Seq<Seq<char>>,
    flags: Seq<FlagModel>,
    help_text: Seq<char>,
) -> ContextModel {
    let parsed = resolve_flags(flags, tokens);
    ContextModel { args: parsed.tokens, entries: parsed.entries, help_text }
}

/// The models of recorded entries.
pub open spec fn entry_models(v: Seq<(String, Result<FlagValue, FlagError>)>) -> Seq<Entry> {
    Seq::new(v.len(), |i: int| (v[i].0@, resolution_of(v[i].1)))
}

/// What a handler is given.
pub struct Context {
    /// The arguments that are left once flags and their values are taken out.
    pub args: Vec<String>,
    /// Each declared flag's name with what the flag resolved to.
    pub flags: Option<Vec<(String, Result<FlagValue, FlagError>)>>,
    /// The help text of the command that the context was made for.
    pub help_text: String,
}

impl View for Context {
    type V = ContextModel;

    open spec fn view(&self) -> ContextModel {
        ContextModel {
            args: texts(self.args@),
            entries: match self.flags {
                Some(v) => entry_models(v@),
                None => Seq::empty(),
            },
            help_text: self.help_text@,
        }
    }
}

/// Takes the first occurrence of `flag`, which stands at `index`, out of
/// `tokens`, with the value it takes, and returns what it resolves to.
fn take_occurrence(flag: &Flag, tokens: &mut Vec<String>, index: usize) -> (r: Result<
    FlagValue,
    FlagError,
>)
    requires
        flag@.occurs_in(texts(old(tokens)@)),
        index as int == flag@.locate(texts(old(tokens)@)),
    ensures
        texts(final(tokens)@) == without_first(flag@, texts(old(tokens)@)),
        resolution_of(r) == flag@.read(following(flag@, texts(old(tokens)@))),
{
    let ghost before = tokens@;
    tokens.remove(index);
    proof {
        assert(texts(tokens@) =~= texts(before).remove(index as int));
    }
    let taken: Option<String> = match flag.flag_type {
        FlagType::Bool => None,
        _ => {
            if tokens.len() <= index {
                None
            } else {
                let ghost mid = tokens@;
                let value = tokens.remove(index);
                proof {
                    assert(texts(tokens@) =~= texts(mid).remove(index as int));
                    assert(value@ == texts(before)[index + 1]);
                }
                Some(value)
            }
        },
    };
    flag.value(taken)
}

/// Resolves `flag` against `tokens` and records the outcome in `entries`.
fn resolve_into(
    flag: &Flag,
    tokens: &mut Vec<String>,
    entries: &mut Vec<(String, Result<FlagValue, FlagError>)>,
)
    ensures
        texts(final(tokens)@) == resolve_flag(flag@, texts(old(tokens)@)).tokens,
        entry_models(final(entries)@) == entry_models(old(entries)@) + resolve_flag(
            flag@,
            texts(old(tokens)@),
        ).entries,
{
    let ghost tokens0 = texts(tokens@);
    let ghost entries0 = entry_models(entries@);
    proof {
        lemma_locate(flag@, tokens0);
    }
    match flag.option_index(tokens.as_slice()) {
        None => {
            let ghost before = entries@;
            entries.push((flag.name.clone(), Err(FlagError::NotFound)));
            proof {
                assert(entry_models(entries@) =~= entry_models(before).push(
                    (flag@.name, Err(FlagError::NotFound)),
                ));
                assert(entry_models(entries@) =~= entries0 + resolve_flag(
                    flag@,
                    tokens0,
                ).entries);
            }
        },
        Some(first) => {
            let value = take_occurrence(flag, tokens, first);
            let ghost before = entries@;
            entries.push((flag.name.clone(), value));
            proof {
                assert(entry_models(entries@) =~= entry_models(before).push(
                    (flag@.name, resolution_of(value)),
                ));
            }
            if flag.multiple {
                let ghost mut taken: Seq<Entry> = seq![(flag@.name, resolution_of(value))];
                proof {
                    assert(entry_models(entries@) =~= entries0 + taken);
                }
                loop
                    invariant
                        entry_models(entries@) == entries0 + taken,
                        take_all(flag@, tokens0).tokens == take_all(flag@, texts(tokens@)).tokens,
                        take_all(flag@, tokens0).entries == taken + take_all(
                            flag@,
                            texts(tokens@),
                        ).entries,
                    ensures
                        texts(tokens@) == take_all(flag@, tokens0).tokens,
                        entry_models(entries@) == entries0 + take_all(flag@, tokens0).entries,
                    decreases tokens.len(),
                {
                    let ghost now = texts(tokens@);
                    proof {
                        lemma_locate(flag@, now);
                    }
                    match flag.option_index(tokens.as_slice()) {
                        None => {
                            proof {
                                assert(taken + Seq::<Entry>::empty() =~= taken);
                            }
                            break ;
                        },
                        Some(next) => {
                            let value = take_occurrence(flag, tokens, next);
                            let ghost before = entries@;
                            entries.push((flag.name.clone(), value));
                            proof {
                                let entry = (flag@.name, resolution_of(value));
                                assert(entry_models(entries@) =~= entry_models(before).push(
                                    entry,
                                ));
                                assert(take_all(flag@, now).entries =~= seq![entry] + take_all(
                                    flag@,
                                    texts(tokens@),
                                ).entries);
                                assert(taken + (seq![entry] + take_all(
                                    flag@,
                                    texts(tokens@),
                                ).entries) =~= taken.push(entry) + take_all(
                                    flag@,
                                    texts(tokens@),
                                ).entries);
                                taken = taken.push(entry);
                                assert(entry_models(entries@) =~= entries0 + taken);
                            }
                        },
                    }
                }
            } else {
                proof {
                    assert(entry_models(entries@) =~= entries0 + resolve_flag(
                        flag@,
                        tokens0,
                    ).entries);
                }
            }
        },
    }
}

impl Context {
    /// Resolves the declared flags against the arguments, one flag after
    /// the other, and keeps what is left as positional arguments.
    pub fn new(args: Vec<String>, flags: Option<Vec<Flag>>, help_text: String) -> (r: Context)
        ensures
            r@ == context_of(texts(args@), declared(flags), help_text@),
    {
        Context::with_flags(args, &flags, help_text)
    }

    /// As `new`, with the flags borrowed.
    pub fn with_flags(args: Vec<String>, flags: &Option<Vec<Flag>>, help_text: String) -> (r:
        Context)
        ensures
            r@ == context_of(texts(args@), declared(*flags), help_text@),
    {
        let mut parsed_args = args;
        let recorded = match flags {
            Some(list) => {
                let mut entries: Vec<(String, Result<FlagValue, FlagError>)> = Vec::new();
                let mut i: usize = 0;
                proof {
                    assert(flag_models(list@).take(0) =~= Seq::empty());
                    assert(entry_models(entries@) =~= Seq::empty());
                }
                while i < list.len()
                    invariant
                        0 <= i <= list.len(),
                        texts(parsed_args@) == resolve_flags(
                            flag_models(list@).take(i as int),
                            texts(args@),
                        ).tokens,
                        entry_models(entries@) == resolve_flags(
                            flag_models(list@).take(i as int),
                            texts(args@),
                        ).entries,
                    decreases list.len() - i,
                {
                    resolve_into(&list[i], &mut parsed_args, &mut entries);
                    proof {
                        let models = flag_models(list@);
                        assert(models.take(i + 1).drop_last() =~= models.take(i as int));
                        assert(models.take(i + 1).last() == list[i as int]@);
                    }
                    i += 1;
                }
                proof {
                    assert(flag_models(list@).take(i as int) =~= flag_models(list@));
                }
                Some(entries)
            },
            None => None,
        };
        Context { args: parsed_args, flags: recorded, help_text }
    }

    /// What the flag `name` resolved to.
    fn result_flag_value(&self, name: &str) -> (r: Result<&FlagValue, FlagError>)
        ensures
            (match r {
                Ok(v) => Ok(v@),
                Err(e) => Err(e),
            }) == lookup(self@.entries, name@),
    {
        proof {
            lemma_entry_index(self@.entries, name@);
        }
        match &self.flags {
            Some(entries) => {
                let mut i: usize = 0;
                while i < entries.len()
                    invariant
                        0 <= i <= entries.len(),
                        self@.entries == entry_models(entries@),
                        forall|j: int| 0 <= j < i ==> (#[trigger] self@.entries[j]).0 != name@,
                    decreases entries.len() - i,
                {
                    if same_text(entries[i].0.as_str(), name) {
                        proof {
                            lemma_entry_index(self@.entries, name@);
                            assert(self@.entries[i as int].0 == name@);
                        }
                        return match &entries[i].1 {
                            Ok(v) => Ok(v),
                            Err(e) => Err(*e),
                        };
                    }
                    i += 1;
                }
                proof {
                    lemma_entry_index(self@.entries, name@);
                }
                Err(FlagError::Undefined)
            },
            None => Err(FlagError::Undefined),
        }
    }

    /// All that the flag `name` resolved to, in the order in which it was
    /// given.
    fn result_flag_value_vec(&self, name: &str) -> (r: Vec<Result<FlagValue, FlagError>>)
        ensures
            resolutions_of(r@) == resolutions(self@.entries, name@),
    {
        let mut found: Vec<Result<FlagValue, FlagError>> = Vec::new();
        match &self.flags {
            Some(entries) => {
                let mut i: usize = 0;
                proof {
                    assert(self@.entries.take(0) =~= Seq::empty());
                    assert(resolutions_of(found@) =~= Seq::empty());
                }
                while i < entries.len()
                    invariant
                        0 <= i <= entries.len(),
                        self@.entries == entry_models(entries@),
                        resolutions_of(found@) == lookup_all(
                            self@.entries.take(i as int),
                            name@,
                        ),
                    decreases entries.len() - i,
                {
                    proof {
                        let all = self@.entries;
                        assert(all.take(i + 1).drop_last() =~= all.take(i as int));
                        assert(all.take(i + 1).last() == all[i as int]);
                    }
                    if same_text(entries[i].0.as_str(), name) {
                        let ghost before = found@;
                        let copy = match &entries[i].1 {
                            Ok(v) => Ok(v.duplicate()),
                            Err(e) => Err(*e),
                        };
                        found.push(copy);
                        proof {
                            assert(resolutions_of(found@) =~= resolutions_of(before).push(
                                resolution_of(copy),
                            ));
                        }
                    }
                    i += 1;
                }
                proof {
                    assert(self@.entries.take(i as int) =~= self@.entries);
                }
            },
            None => {
                proof {
                    assert(resolutions_of(found@) =~= Seq::empty());
                }
            },
        }
        if found.len() == 0 {
            found.push(Err(FlagError::Undefined));
            proof {
                assert(resolutions_of(found@) =~= seq![Err(FlagError::Undefined)]);
            }
        }
        found
    }

    /// Whether the flag `name` is set. A flag that is absent, undeclared or
    /// of another type counts as not set.
    pub fn bool_flag(&self, name: &str) -> (r: bool)
        ensures
            r == as_bool(lookup(self@.entries, name@)),
    {
        match self.result_flag_value(name) {
            Ok(FlagValue::Bool(val)) => *val,
            _ => false,
        }
    }

    /// The text that the flag `name` was given.
    pub fn string_flag(&self, name: &str) -> (r: Result<String, FlagError>)
        ensures
            text_result(r) == as_string(lookup(self@.entries, name@)),
    {
        match self.result_flag_value(name) {
            Ok(FlagValue::String(val)) => Ok(val.clone()),
            Ok(_) => Err(FlagError::TypeError),
            Err(e) => Err(e),
        }
    }

    /// The integer that the flag `name` was given.
    pub fn int_flag(&self, name: &str) -> (r: Result<isize, FlagError>)
        ensures
            r == as_int(lookup(self@.entries, name@)),
    {
        match self.result_flag_value(name) {
            Ok(FlagValue::Int(val)) => Ok(*val),
            Ok(_) => Err(FlagError::TypeError),
            Err(e) => Err(e),
        }
    }

    /// The floating-point literal that the flag `name` was given, as it was
    /// written.
    pub fn float_flag(&self, name: &str) -> (r: Result<String, FlagError>)
        ensures
            text_result(r) == as_float(lookup(self@.entries, name@)),
    {
        match self.result_flag_value(name) {
            Ok(FlagValue::Float(val)) => Ok(val.clone()),
            Ok(_) => Err(FlagError::TypeError),
            Err(e) => Err(e),
        }
    }

    /// For each time the flag `name` was given, whether it is set.
    pub fn bool_flag_vec(&self, name: &str) -> (r: Vec<bool>)
        ensures
            r@ == resolutions(self@.entries, name@).map_values(|x: Resolution| as_bool(x)),
    {
        let found = self.result_flag_value_vec(name);
        let mut out: Vec<bool> = Vec::new();
        let mut i: usize = 0;
        while i < found.len()
            invariant
                0 <= i <= found.len(),
                out@.len() == i,
                forall|j: int| 0 <= j < i ==> out@[j] == as_bool(resolution_of(found@[j])),
            decreases found.len() - i,
        {
            let b = match &found[i] {
                Ok(FlagValue::Bool(val)) => *val,
                _ => false,
            };
            out.push(b);
            i += 1;
        }
        proof {
            let all = resolutions(self@.entries, name@);
            assert forall|j: int| 0 <= j < out@.len() implies out@[j] == as_bool(all[j]) by {
                assert(all[j] == resolutions_of(found@)[j]);
            }
            assert(out@ =~= all.map_values(|x: Resolution| as_bool(x)));
        }
        out
    }

    /// For each time the flag `name` was given, the text it was given.
    pub fn string_flag_vec(&self, name: &str) -> (r: Vec<Result<String, FlagError>>)
        ensures
            text_results(r@) == resolutions(self@.entries, name@).map_values(
                |x: Resolution| as_string(x),
            ),
    {
        let found = self.result_flag_value_vec(name);
        let mut out: Vec<Result<String, FlagError>> = Vec::new();
        let mut i: usize = 0;
        while i < found.len()
            invariant
                0 <= i <= found.len(),
                out@.len() == i,
                forall|j: int|
                    0 <= j < i ==> text_result(out@[j]) == as_string(resolution_of(found@[j])),
            decreases found.len() - i,
        {
            let item = match &found[i] {
                Ok(FlagValue::String(val)) => Ok(val.clone()),
                Ok(_) => Err(FlagError::TypeError),
                Err(e) => Err(*e),
            };
            out.push(item);
            i += 1;
        }
        proof {
            let all = resolutions(self@.entries, name@);
            assert forall|j: int| 0 <= j < out@.len() implies text_results(out@)[j] == as_string(
                all[j],
            ) by {
                assert(all[j] == resolutions_of(found@)[j]);
            }
            assert(text_results(out@) =~= all.map_values(|x: Resolution| as_string(x)));
        }
        out
    }

    /// For each time the flag `name` was given, the integer it was given.
    pub fn int_flag_vec(&self, name: &str) -> (r: Vec<Result<isize, FlagError>>)
        ensures
            r@ == resolutions(self@.entries, name@).map_values(|x: Resolution| as_int(x)),
    {
        let found = self.result_flag_value_vec(name);
        let mut out: Vec<Result<isize, FlagError>> = Vec::new();
        let mut i: usize = 0;
        while i < found.len()
            invariant
                0 <= i <= found.len(),
                out@.len() == i,
                forall|j: int| 0 <= j < i ==> out@[j] == as_int(resolution_of(found@[j])),
            decreases found.len() - i,
        {
            let item = match &found[i] {
                Ok(FlagValue::Int(val)) => Ok(*val),
                Ok(_) => Err(FlagError::TypeError),
                Err(e) => Err(*e),
            };
            out.push(item);
            i += 1;
        }
        proof {
            let all = resolutions(self@.entries, name@);
            assert forall|j: int| 0 <= j < out@.len() implies out@[j] == as_int(all[j]) by {
                assert(all[j] == resolutions_of(found@)[j]);
            }
            assert(out@ =~= all.map_values(|x: Resolution| as_int(x)));
        }
        out
    }

    /// For each time the flag `name` was given, the floating-point literal
    /// it was given, as it was written.
    pub fn float_flag_vec(&self, name: &str) -> (r: Vec<Result<String, FlagError>>)
        ensures
            text_results(r@) == resolutions(self@.entries, name@).map_values(
                |x: Resolution| as_float(x),
            ),
    {
        let found = self.result_flag_value_vec(name);
        let mut out: Vec<Result<String, FlagError>> = Vec::new();
        let mut i: usize = 0;
        while i < found.len()
            invariant
                0 <= i <= found.len(),
                out@.len() == i,
                forall|j: int|
                    0 <= j < i ==> text_result(out@[j]) == as_float(resolution_of(found@[j])),
            decreases found.len() - i,
        {
            let item = match &found[i] {
                Ok(FlagValue::Float(val)) => Ok(val.clone()),
                Ok(_) => Err(FlagError::TypeError),
                Err(e) => Err(*e),
            };
            out.push(item);
            i += 1;
        }
        proof {
            let all = resolutions(self@.entries, name@);
            assert forall|j: int| 0 <= j < out@.len() implies text_results(out@)[j] == as_float(
                all[j],
            ) by {
                assert(all[j] == resolutions_of(found@)[j]);
            }
            assert(text_results(out@) =~= all.map_values(|x: Resolution| as_float(x)));
        }
        out
    }

    /// The help text that the context was made with.
    pub fn help_text(&self) -> (r: &str)
        ensures
            r@ == self@.help_text,
    {
        self.help_text.as_str()
    }
}

} // verus!
