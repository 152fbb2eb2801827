//! Flags: their declaration, where they stand among the tokens, and how the
//! token that follows one is read.

use vstd::prelude::*;
use vstd::string::*;
use crate::error::FlagError;
use crate::number::{is_float, is_float_text, parse_int, parsed_int};
use crate::text::{join_text, opt_text, same_text, texts};

verus! {

/// The type of the value that a flag takes.
#[derive(PartialEq, Eq, Structural, Clone, Copy, Debug)]
pub enum FlagType {
    Bool,
    String,
    Int,
    Float,
}

/// The value that a flag was given.
///
/// A float is kept as the literal that was written, which is known to follow
/// the grammar of floating-point literals.
#[derive(PartialEq, Clone, Debug)]
pub enum FlagValue {
    Bool(bool),
    String(String),
    Int(isize),
    Float(String),
}

/// A flag value as a mathematical value.
pub enum FlagValueModel {
    Bool(bool),
    String(Seq<char>),
    Int(isize),
    Float(Seq<char>),
}

impl View for FlagValue {
    type V = FlagValueModel;

    open spec fn view(&self) -> FlagValueModel {
        match self {
            FlagValue::Bool(b) => FlagValueModel::Bool(*b),
            FlagValue::String(s) => FlagValueModel::String(s@),
            FlagValue::Int(i) => FlagValueModel::Int(*i),
            FlagValue::Float(s) => FlagValueModel::Float(s@),
        }
    }
}

impl FlagValue {
    /// A copy of the value.
    pub fn duplicate(&self) -> (r: FlagValue)
        ensures
            r@ == self@,
    {
        match self {
            FlagValue::Bool(b) => FlagValue::Bool(*b),
            FlagValue::String(s) => FlagValue::String(s.clone()),
            FlagValue::Int(i) => FlagValue::Int(*i),
            FlagValue::Float(s) => FlagValue::Float(s.clone()),
        }
    }
}

/// What looking a flag up gives: its value, or why there is none.
pub type Resolution = Result<FlagValueModel, FlagError>;

/// The model of what `Flag::value` returns.
pub open spec fn resolution_of(r: Result<FlagValue, FlagError>) -> Resolution {
    match r {
        Ok(v) => Ok(v@),
        Err(e) => Err(e),
    }
}

/// A declared flag.
#[derive(Clone, Debug)]
pub struct Flag {
    /// The name, given on the command line as `--name`.
    pub name: String,
    /// What the flag is for, shown in the help text.
    pub description: Option<String>,
    /// The type of the value that the flag takes.
    pub flag_type: FlagType,
    /// Other names, each given on the command line as `-alias`.
    pub alias: Option<Vec<String>>,
    /// Whether the flag may be given more than once.
    pub multiple: bool,
}

/// A declared flag as a mathematical value.
pub struct FlagModel {
    pub name: Seq<char>,
    pub description: Option<Seq<char>>,
    pub flag_type: FlagType,
    pub aliases: Seq<Seq<char>>,
    pub multiple: bool,
}

impl View for Flag {
    type V = FlagModel;

    open spec fn view(&self) -> FlagModel {
        FlagModel {
            name: self.name@,
            description: opt_text(self.description),
            flag_type: self.flag_type,
            aliases: match self.alias {
                Some(a) => texts(a@),
                None => Seq::empty(),
            },
            multiple: self.multiple,
        }
    }
}

/// The models of the flags that were declared, if any were.
pub open spec fn declared(flags: Option<Vec<Flag>>) -> Seq<FlagModel> {
    match flags {
        Some(v) => flag_models(v@),
        None => Seq::empty(),
    }
}

/// The models of a sequence of flags.
pub open spec fn flag_models(flags: Seq<Flag>) -> Seq<FlagModel> {
    Seq::new(flags.len(), |i: int| flags[i]@)
}

/// Whether a flag among `flags` has the name `name`.
pub open spec fn flag_declared(flags: Seq<FlagModel>, name: Seq<char>) -> bool {
    exists|i: int| 0 <= i < flags.len() && (#[trigger] flags[i]).name == name
}

/// No two of the flags have the same name.
pub open spec fn unique_flag_names(flags: Seq<FlagModel>) -> bool {
    forall|i: int, j: int|
        0 <= i < j < flags.len() ==> (#[trigger] flags[i]).name != (#[trigger] flags[j]).name
}

/// Each of the flags has a name that a flag can have, and no two have the
/// same name.
pub open spec fn flags_wf(flags: Seq<FlagModel>) -> bool {
    &&& forall|i: int| 0 <= i < flags.len() ==> (#[trigger] flags[i]).wf()
    &&& unique_flag_names(flags)
}

/// Whether a flag among `flags` has the name `name`.
pub fn has_flag(flags: &Option<Vec<Flag>>, name: &str) -> (r: bool)
    ensures
        r == flag_declared(declared(*flags), name@),
{
    match flags {
        Some(list) => {
            let mut i: usize = 0;
            while i < list.len()
                invariant
                    0 <= i <= list.len(),
                    *flags == Some(*list),
                    forall|j: int| 0 <= j < i ==> (#[trigger] flag_models(list@)[j]).name != name@,
                decreases list.len() - i,
            {
                if same_text(list[i].name.as_str(), name) {
                    assert(flag_models(list@)[i as int].name == name@);
                    return true;
                }
                i += 1;
            }
            false
        },
        None => false,
    }
}

/// The flags with one more declared after them.
pub fn with_flag(flags: Option<Vec<Flag>>, flag: Flag) -> (r: Option<Vec<Flag>>)
    ensures
        r is Some,
        declared(r) == declared(flags).push(flag@),
        !flag_declared(declared(flags), flag@.name) && flags_wf(declared(flags)) && flag@.wf()
            ==> flags_wf(declared(r)),
{
    let mut list: Vec<Flag> = match flags {
        Some(v) => v,
        None => Vec::new(),
    };
    let ghost before = flag_models(list@);
    list.push(flag);
    proof {
        assert(before =~= declared(flags));
        assert(flag_models(list@) =~= before.push(flag@));
        if !flag_declared(before, flag@.name) && flags_wf(before) && flag@.wf() {
            let after = flag_models(list@);
            assert forall|i: int| 0 <= i < after.len() implies (#[trigger] after[i]).wf() by {
                if i < before.len() {
                    assert(after[i] == before[i]);
                }
            }
            assert forall|i: int, j: int| 0 <= i < j < after.len() implies (#[trigger] after[i]).name
                != (#[trigger] after[j]).name by {
                assert(after[i] == before[i]);
                if j < before.len() {
                    assert(after[j] == before[j]);
                }
            }
        }
    }
    Some(list)
}

/// A blank character.
pub open spec fn is_blank(c: char) -> bool {
    c == ' ' || c == '\t' || c == '\n' || c == '\r' || c == '\x0C'
}

/// A name that a flag can have: it does not start with a dash, and holds
/// neither `=` nor a blank.
pub open spec fn valid_flag_name(name: Seq<char>) -> bool {
    &&& !(name.len() > 0 && name[0] == '-')
    &&& forall|i: int| 0 <= i < name.len() ==> name[i] != '=' && !is_blank(#[trigger] name[i])
}

impl FlagModel {
    /// The flag has a name that a flag can have.
    pub open spec fn wf(self) -> bool {
        valid_flag_name(self.name)
    }

    /// The long form of the flag: two dashes and the name.
    pub open spec fn long_form(self) -> Seq<char> {
        seq!['-', '-'] + self.name
    }

    /// The short form for the alias at `k`: one dash and the alias.
    pub open spec fn short_form(self, k: int) -> Seq<char> {
        seq!['-'] + self.aliases[k]
    }

    /// Whether the token names this flag, by its name or by an alias.
    pub open spec fn matches(self, token: Seq<char>) -> bool {
        token == self.long_form() || exists|k: int|
            0 <= k < self.aliases.len() && token == #[trigger] self.short_form(k)
    }

    /// Index of the first token that names this flag, or the number of
    /// tokens where none does.
    pub open spec fn locate(self, tokens: Seq<Seq<char>>) -> int
        decreases tokens.len(),
    {
        if tokens.len() == 0 {
            0
        } else if self.matches(tokens[0]) {
            0
        } else {
            1 + self.locate(tokens.drop_first())
        }
    }

    /// The indices of the tokens that name this flag, in order.
    pub open spec fn occurrences(self, tokens: Seq<Seq<char>>) -> Seq<int>
        decreases tokens.len(),
    {
        if tokens.len() == 0 {
            Seq::empty()
        } else if self.matches(tokens.last()) {
            self.occurrences(tokens.drop_last()).push(tokens.len() - 1)
        } else {
            self.occurrences(tokens.drop_last())
        }
    }

    /// Whether some token names this flag.
    pub open spec fn occurs_in(self, tokens: Seq<Seq<char>>) -> bool {
        0 <= self.locate(tokens) < tokens.len()
    }

    /// How a flag of this type reads the token that follows it, if any.
    pub open spec fn read(self, following: Option<Seq<char>>) -> Resolution {
        match self.flag_type {
            FlagType::Bool => Ok(FlagValueModel::Bool(true)),
            FlagType::String => match following {
                Some(s) => Ok(FlagValueModel::String(s)),
                None => Err(FlagError::ArgumentError),
            },
            FlagType::Int => match following {
                Some(s) => match parsed_int(s) {
                    Some(i) => Ok(FlagValueModel::Int(i)),
                    None => Err(FlagError::ValueTypeError),
                },
                None => Err(FlagError::ArgumentError),
            },
            FlagType::Float => match following {
                Some(s) => if is_float_text(s) {
                    Ok(FlagValueModel::Float(s))
                } else {
                    Err(FlagError::ValueTypeError)
                },
                None => Err(FlagError::ArgumentError),
            },
        }
    }
}

/// `locate` is in bounds, points at a token that names the flag, and no
/// token before it does.
pub proof fn lemma_locate(f: FlagModel, tokens: Seq<Seq<char>>)
    ensures
        0 <= f.locate(tokens) <= tokens.len(),
        f.occurs_in(tokens) ==> f.matches(tokens[f.locate(tokens)]),
        forall|j: int| 0 <= j < f.locate(tokens) ==> !f.matches(#[trigger] tokens[j]),
    decreases tokens.len(),
{
    if tokens.len() == 0 {
    } else if f.matches(tokens[0]) {
    } else {
        let rest = tokens.drop_first();
        lemma_locate(f, rest);
        let p = f.locate(rest);
        assert forall|j: int| 0 <= j < 1 + p implies !f.matches(#[trigger] tokens[j]) by {
            if j > 0 {
                assert(tokens[j] == rest[j - 1]);
            }
        }
        if p < rest.len() {
            assert(tokens[1 + p] == rest[p]);
        }
    }
}

/// `occurrences` lists, in rising order, exactly the indices of the tokens
/// that name the flag; the first of them is `locate`.
pub proof fn lemma_occurrences(f: FlagModel, tokens: Seq<Seq<char>>)
    ensures
        forall|k: int|
            0 <= k < f.occurrences(tokens).len() ==> 0 <= (#[trigger] f.occurrences(tokens)[k])
                < tokens.len() && f.matches(tokens[f.occurrences(tokens)[k]]),
        forall|j: int, k: int|
            0 <= j < k < f.occurrences(tokens).len() ==> (#[trigger] f.occurrences(tokens)[j]) < (
            #[trigger] f.occurrences(tokens)[k]),
        forall|i: int|
            0 <= i < tokens.len() && f.matches(#[trigger] tokens[i]) ==> f.occurrences(
                tokens,
            ).contains(i),
        f.occurrences(tokens).len() > 0 <==> f.occurs_in(tokens),
        f.occurs_in(tokens) ==> f.occurrences(tokens)[0] == f.locate(tokens),
    decreases tokens.len(),
{
    lemma_locate(f, tokens);
    if tokens.len() > 0 {
        let front = tokens.drop_last();
        let last = tokens.len() - 1;
        lemma_occurrences(f, front);
        lemma_locate(f, front);
        let before = f.occurrences(front);
        let all = f.occurrences(tokens);
        assert forall|k: int| 0 <= k < all.len() implies 0 <= (#[trigger] all[k]) < tokens.len()
            && f.matches(tokens[all[k]]) by {
            if k < before.len() {
                assert(all[k] == before[k]);
                assert(tokens[before[k]] == front[before[k]]);
            }
        }
        assert forall|j: int, k: int| 0 <= j < k < all.len() implies (#[trigger] all[j]) < (
        #[trigger] all[k]) by {
            assert(all[j] == before[j]);
            if k < before.len() {
                assert(all[k] == before[k]);
            }
        }
        assert forall|i: int| 0 <= i < tokens.len() && f.matches(
            #[trigger] tokens[i],
        ) implies all.contains(i) by {
            if i < last {
                assert(front[i] == tokens[i]);
                assert(before.contains(i));
                let k = choose|k: int| 0 <= k < before.len() && before[k] == i;
                assert(all[k] == i);
            } else {
                assert(all[all.len() - 1] == i);
            }
        }
        if all.len() > 0 {
            assert(f.matches(tokens[all[0]]));
            let p = f.locate(tokens);
            assert(all.contains(p));
            let k = choose|k: int| 0 <= k < all.len() && all[k] == p;
            if k > 0 {
                assert(all[0] < all[k]);
            }
        }
        if f.occurs_in(tokens) {
            assert(all.contains(f.locate(tokens)));
        }
    }
}

/// Any index with the properties of `locate` is `locate`.
pub proof fn lemma_locate_unique(f: FlagModel, tokens: Seq<Seq<char>>, p: int)
    requires
        0 <= p <= tokens.len(),
        p < tokens.len() ==> f.matches(tokens[p]),
        forall|j: int| 0 <= j < p ==> !f.matches(#[trigger] tokens[j]),
    ensures
        f.locate(tokens) == p,
{
    lemma_locate(f, tokens);
}

impl Flag {
    /// Whether `name` can be the name of a flag.
    pub fn is_valid_name(name: &str) -> (r: bool)
        ensures
            r == valid_flag_name(name@),
    {
        let n: usize = name.unicode_len();
        if n > 0 && name.get_char(0) == '-' {
            return false;
        }
        let mut i: usize = 0;
        while i < n
            invariant
                n == name@.len(),
                0 <= i <= n,
                forall|j: int| 0 <= j < i ==> name@[j] != '=' && !is_blank(#[trigger] name@[j]),
            decreases n - i,
        {
            let c = name.get_char(i);
            if c == '=' || c == ' ' || c == '\t' || c == '\n' || c == '\r' || c == '\x0C' {
                assert(name@[i as int] == '=' || is_blank(name@[i as int]));
                return false;
            }
            i += 1;
        }
        true
    }

    /// Declares a flag of the given name and type, with no description and
    /// no alias, that may be given once.
    pub fn new(name: &str, flag_type: FlagType) -> (r: Flag)
        requires
            valid_flag_name(name@),
        ensures
            r@ == (FlagModel {
                name: name@,
                description: None,
                flag_type,
                aliases: Seq::empty(),
                multiple: false,
            }),
            r@.wf(),
            r.alias is None,
    {
        Flag {
            name: String::from_str(name),
            description: None,
            flag_type,
            alias: None,
            multiple: false,
        }
    }

    /// Sets the description.
    pub fn description(self, description: &str) -> (r: Flag)
        ensures
            r@ == (FlagModel { description: Some(description@), ..self@ }),
            r.alias == self.alias,
    {
        Flag {
            name: self.name,
            description: Some(String::from_str(description)),
            flag_type: self.flag_type,
            alias: self.alias,
            multiple: self.multiple,
        }
    }

    /// Adds an alias, after those that the flag has.
    pub fn alias(self, name: &str) -> (r: Flag)
        ensures
            r@ == (FlagModel { aliases: self@.aliases.push(name@), ..self@ }),
            r.alias is Some,
    {
        let mut names: Vec<String> = match self.alias {
            Some(a) => a,
            None => Vec::new(),
        };
        let ghost before = names@;
        names.push(String::from_str(name));
        proof {
            assert(texts(names@) =~= texts(before).push(name@));
            assert(texts(before) =~= self@.aliases);
        }
        Flag {
            name: self.name,
            description: self.description,
            flag_type: self.flag_type,
            alias: Some(names),
            multiple: self.multiple,
        }
    }

    /// Lets the flag be given more than once.
    pub fn multiple(self) -> (r: Flag)
        ensures
            r@ == (FlagModel { multiple: true, ..self@ }),
            r.alias == self.alias,
    {
        Flag {
            name: self.name,
            description: self.description,
            flag_type: self.flag_type,
            alias: self.alias,
            multiple: true,
        }
    }

    /// Whether the token names this flag.
    pub fn matches_token(&self, token: &str) -> (r: bool)
        ensures
            r == self@.matches(token@),
    {
        let long = join_text("--", self.name.as_str());
        proof {
            reveal_strlit("--");
            assert(long@ =~= self@.long_form());
        }
        if same_text(token, long.as_str()) {
            return true;
        }
        match &self.alias {
            Some(names) => {
                let mut k: usize = 0;
                while k < names.len()
                    invariant
                        0 <= k <= names.len(),
                        self@.aliases == texts(names@),
                        forall|j: int| 0 <= j < k ==> token@ != #[trigger] self@.short_form(j),
                    decreases names.len() - k,
                {
                    let short = join_text("-", names[k].as_str());
                    proof {
                        reveal_strlit("-");
                        assert(short@ =~= self@.short_form(k as int));
                    }
                    if same_text(token, short.as_str()) {
                        return true;
                    }
                    k += 1;
                }
                false
            },
            None => false,
        }
    }

    /// Where the flag first stands among the tokens, if it does.
    pub fn option_index(&self, v: &[String]) -> (r: Option<usize>)
        ensures
            r is Some <==> self@.occurs_in(texts(v@)),
            r is Some ==> r->0 as int == self@.locate(texts(v@)),
    {
        let ghost tokens = texts(v@);
        let mut i: usize = 0;
        while i < v.len()
            invariant
                0 <= i <= v.len(),
                tokens == texts(v@),
                forall|j: int| 0 <= j < i ==> !self@.matches(#[trigger] tokens[j]),
            decreases v.len() - i,
        {
            if self.matches_token(v[i].as_str()) {
                proof {
                    lemma_locate_unique(self@, tokens, i as int);
                }
                return Some(i);
            }
            i += 1;
        }
        proof {
            lemma_locate_unique(self@, tokens, i as int);
        }
        None
    }

    /// Every place where the flag stands among the tokens, left to right.
    pub fn option_indices(&self, v: &[String]) -> (r: Vec<usize>)
        ensures
            r@.map_values(|i: usize| i as int) == self@.occurrences(texts(v@)),
    {
        let ghost tokens = texts(v@);
        let mut found: Vec<usize> = Vec::new();
        let mut i: usize = 0;
        proof {
            assert(tokens.take(0) =~= Seq::empty());
            assert(found@.map_values(|i: usize| i as int) =~= Seq::empty());
        }
        while i < v.len()
            invariant
                0 <= i <= v.len(),
                tokens == texts(v@),
                found@.map_values(|i: usize| i as int) == self@.occurrences(tokens.take(i as int)),
            decreases v.len() - i,
        {
            proof {
                assert(tokens.take(i + 1).drop_last() =~= tokens.take(i as int));
                assert(tokens.take(i + 1).last() == tokens[i as int]);
            }
            if self.matches_token(v[i].as_str()) {
                let ghost before = found@;
                found.push(i);
                proof {
                    assert(found@.map_values(|i: usize| i as int) =~= before.map_values(
                        |i: usize| i as int,
                    ).push(i as int));
                }
            }
            i += 1;
        }
        proof {
            assert(tokens.take(i as int) =~= tokens);
        }
        found
    }

    /// Reads the token that follows the flag, by the flag's type.
    ///
    /// A flag without a value is present and therefore true. Every other
    /// flag needs a token; an integer or a float needs one that reads as
    /// such.
    pub fn value(&self, v: Option<String>) -> (r: Result<FlagValue, FlagError>)
        ensures
            resolution_of(r) == self@.read(
                match v {
                    Some(s) => Some(s@),
                    None => None,
                },
            ),
    {
        match self.flag_type {
            FlagType::Bool => Ok(FlagValue::Bool(true)),
            FlagType::String => match v {
                Some(s) => Ok(FlagValue::String(s)),
                None => Err(FlagError::ArgumentError),
            },
            FlagType::Int => match v {
                Some(s) => match parse_int(s.as_str()) {
                    Some(i) => Ok(FlagValue::Int(i)),
                    None => Err(FlagError::ValueTypeError),
                },
                None => Err(FlagError::ArgumentError),
            },
            FlagType::Float => match v {
                Some(s) => if is_float(s.as_str()) {
                    Ok(FlagValue::Float(s))
                } else {
                    Err(FlagError::ValueTypeError)
                },
                None => Err(FlagError::ArgumentError),
            },
        }
    }
}

} // verus!
