//! The syntax tree of a Tyto program and its mathematical model.

use vstd::prelude::*;
use crate::text::{push_range, chars_of};

verus! {

/// A whole program: an optional shared `context` block and the states in source order.
#[derive(Debug, Clone)]
pub struct TytoProgram {
    pub context: Option<DataBlock>,
    pub states: Vec<State>,
}

/// One `state Name { ... }` declaration.
#[derive(Debug, Clone)]
pub struct State {
    pub name: String,
    pub transitions: Vec<Transition>,
    pub data: Option<DataBlock>,
    pub is_terminal: bool,
}

/// One `on Event -> Target;` line, with its optional kind.
#[derive(Debug, Clone)]
pub struct Transition {
    pub transition_type: TransitionType,
    pub event: String,
    pub target: String,
}

/// A `data { ... }` or `context { ... }` block.
#[derive(Debug, Clone)]
pub struct DataBlock {
    pub fields: Vec<Field>,
}

/// One `name: Type` entry of a data block.
#[derive(Debug, Clone)]
pub struct Field {
    pub name: String,
    pub field_type: TytoType,
}

/// The kind of a transition.
#[derive(Debug, Clone, Copy, PartialEq, Eq, Structural)]
pub enum TransitionType {
    Success,
    Recoverable,
    Fatal,
    Default,
}

/// The scalar types of the DSL.
#[derive(Debug, Clone, Copy, PartialEq, Eq, Structural)]
pub enum BaseType {
    String,
    Int,
    Float,
    Bool,
}

/// A field type: a base type, an array (`T[]`) or an optional (`T?`).
#[derive(Debug, PartialEq, Eq)]
pub enum TytoType {
    Base(BaseType),
    Array(Box<TytoType>),
    Optional(Box<TytoType>),
}

// ---------------------------------------------------------------------------
// Mathematical model
// ---------------------------------------------------------------------------

pub struct SpecField {
    pub name: Seq<char>,
    pub field_type: TytoType,
}

pub struct SpecDataBlock {
    pub fields: Seq<SpecField>,
}

pub struct SpecTransition {
    pub transition_type: TransitionType,
    pub event: Seq<char>,
    pub target: Seq<char>,
}

pub struct SpecState {
    pub name: Seq<char>,
    pub transitions: Seq<SpecTransition>,
    pub data: Option<SpecDataBlock>,
    pub is_terminal: bool,
}

pub struct SpecProgram {
    pub context: Option<SpecDataBlock>,
    pub states: Seq<SpecState>,
}

impl View for Field {
    type V = SpecField;

    open spec fn view(&self) -> SpecField {
        SpecField { name: self.name@, field_type: self.field_type }
    }
}

pub open spec fn fields_view(fs: Seq<Field>) -> Seq<SpecField> {
    fs.map_values(|f: Field| f@)
}

impl View for DataBlock {
    type V = SpecDataBlock;

    open spec fn view(&self) -> SpecDataBlock {
        SpecDataBlock { fields: fields_view(self.fields@) }
    }
}

pub open spec fn block_view(b: Option<DataBlock>) -> Option<SpecDataBlock> {
    match b {
        Some(b) => Some(b@),
        None => None,
    }
}

impl View for Transition {
    type V = SpecTransition;

    open spec fn view(&self) -> SpecTransition {
        SpecTransition {
            transition_type: self.transition_type,
            event: self.event@,
            target: self.target@,
        }
    }
}

pub open spec fn transitions_view(ts: Seq<Transition>) -> Seq<SpecTransition> {
    ts.map_values(|t: Transition| t@)
}

impl View for State {
    type V = SpecState;

    open spec fn view(&self) -> SpecState {
        SpecState {
            name: self.name@,
            transitions: transitions_view(self.transitions@),
            data: block_view(self.data),
            is_terminal: self.is_terminal,
        }
    }
}

pub open spec fn states_view(ss: Seq<State>) -> Seq<SpecState> {
    ss.map_values(|s: State| s@)
}

impl View for TytoProgram {
    type V = SpecProgram;

    open spec fn view(&self) -> SpecProgram {
        SpecProgram { context: block_view(self.context), states: states_view(self.states@) }
    }
}

/// The fields of an optional block (none when the block is absent).
pub open spec fn block_fields(b: Option<SpecDataBlock>) -> Seq<SpecField> {
    match b {
        Some(b) => b.fields,
        None => Seq::empty(),
    }
}

/// The fields visible in a state: the program's context fields, then the state's own.
pub open spec fn spec_all_fields(state: SpecState, program: SpecProgram) -> Seq<SpecField> {
    block_fields(program.context) + block_fields(state.data)
}

/// The fields visible in a state are the program's context fields (none
/// without a context block) followed by the state's own data fields (none
/// without a data block), each part taken on its own.
pub proof fn lemma_all_fields_parts(state: SpecState, program: SpecProgram)
    ensures
        spec_all_fields(state, program).len() == (match program.context {
            Some(c) => c.fields.len(),
            None => 0,
        }) + (match state.data {
            Some(d) => d.fields.len(),
            None => 0,
        }),
        program.context matches Some(c) ==> forall|i: int|
            0 <= i < c.fields.len() ==> #[trigger] spec_all_fields(state, program)[i] == c.fields[i],
        state.data matches Some(d) ==> forall|j: int|
            0 <= j < d.fields.len() ==> spec_all_fields(state, program)[(match program.context {
                Some(c) => c.fields.len(),
                None => 0,
            }) + j] == #[trigger] d.fields[j],
{
}

/// The index of the first state called `name`, if any.
pub open spec fn first_state_named(states: Seq<SpecState>, name: Seq<char>) -> Option<int>
    decreases states.len(),
{
    if states.len() == 0 {
        None
    } else if states[0].name == name {
        Some(0)
    } else {
        match first_state_named(states.drop_first(), name) {
            Some(i) => Some(i + 1),
            None => None,
        }
    }
}

// ---------------------------------------------------------------------------
// Type names
// ---------------------------------------------------------------------------

pub open spec fn name_string() -> Seq<char> { seq!['S', 't', 'r', 'i', 'n', 'g'] }
pub open spec fn name_int() -> Seq<char> { seq!['I', 'n', 't'] }
pub open spec fn name_float() -> Seq<char> { seq!['F', 'l', 'o', 'a', 't'] }
pub open spec fn name_bool() -> Seq<char> { seq!['B', 'o', 'o', 'l'] }

/// The meaning of a type name: a trailing `?` makes an optional, a trailing
/// `[]` an array, and what is left must be one of the four base names.
/// The error names the innermost text that is not a type.
pub open spec fn spec_parse_type(s: Seq<char>) -> Result<TytoType, Seq<char>>
    decreases s.len(),
{
    if s.len() > 0 && s.last() == '?' {
        match spec_parse_type(s.drop_last()) {
            Ok(t) => Ok(TytoType::Optional(Box::new(t))),
            Err(e) => Err(e),
        }
    } else if s.len() >= 2 && s[s.len() - 2] == '[' && s[s.len() - 1] == ']' {
        match spec_parse_type(s.subrange(0, s.len() - 2)) {
            Ok(t) => Ok(TytoType::Array(Box::new(t))),
            Err(e) => Err(e),
        }
    } else if s == name_string() {
        Ok(TytoType::Base(BaseType::String))
    } else if s == name_int() {
        Ok(TytoType::Base(BaseType::Int))
    } else if s == name_float() {
        Ok(TytoType::Base(BaseType::Float))
    } else if s == name_bool() {
        Ok(TytoType::Base(BaseType::Bool))
    } else {
        Err("Unknown type: "@ + s)
    }
}

/// A type result with its error message taken as characters.
pub open spec fn type_result_view(r: Result<TytoType, String>) -> Result<TytoType, Seq<char>> {
    match r {
        Ok(t) => Ok(t),
        Err(e) => Err(e@),
    }
}

impl TytoType {
    /// Reads a type name such as `Int`, `String[]` or `Bool?[]`.
    pub fn parse(s: &str) -> (r: Result<TytoType, String>)
        ensures
            type_result_view(r) == spec_parse_type(s@),
    {
        let cs = chars_of(s);
        assert(cs@.subrange(0, cs@.len() as int) == s@);
        Self::parse_range(&cs, 0, cs.len())
    }

    /// Reads the type name spelled by `cs[start..end]`.
    pub fn parse_range(cs: &Vec<char>, start: usize, end: usize) -> (r: Result<TytoType, String>)
        requires
            start <= end <= cs@.len(),
        ensures
            type_result_view(r) == spec_parse_type(cs@.subrange(start as int, end as int)),
        decreases end - start,
    {
        let ghost s = cs@.subrange(start as int, end as int);
        if end > start && cs[end - 1] == '?' {
            assert(s.drop_last() == cs@.subrange(start as int, end - 1));
            match Self::parse_range(cs, start, end - 1) {
                Ok(t) => Ok(TytoType::Optional(Box::new(t))),
                Err(e) => Err(e),
            }
        } else if end - start >= 2 && cs[end - 2] == '[' && cs[end - 1] == ']' {
            assert(s.subrange(0, s.len() - 2) == cs@.subrange(start as int, end - 2));
            match Self::parse_range(cs, start, end - 2) {
                Ok(t) => Ok(TytoType::Array(Box::new(t))),
                Err(e) => Err(e),
            }
        } else if crate::text::range_equals(cs, start, end, &vec!['S', 't', 'r', 'i', 'n', 'g']) {
            Ok(TytoType::Base(BaseType::String))
        } else if crate::text::range_equals(cs, start, end, &vec!['I', 'n', 't']) {
            Ok(TytoType::Base(BaseType::Int))
        } else if crate::text::range_equals(cs, start, end, &vec!['F', 'l', 'o', 'a', 't']) {
            Ok(TytoType::Base(BaseType::Float))
        } else if crate::text::range_equals(cs, start, end, &vec!['B', 'o', 'o', 'l']) {
            Ok(TytoType::Base(BaseType::Bool))
        } else {
            let mut msg = "Unknown type: ".to_owned();
            push_range(&mut msg, cs, start, end);
            Err(msg)
        }
    }

    /// A copy of this type.
    pub fn duplicate(&self) -> (r: TytoType)
        ensures
            r == *self,
        decreases self,
    {
        match self {
            TytoType::Base(b) => TytoType::Base(*b),
            TytoType::Array(inner) => TytoType::Array(Box::new(inner.duplicate())),
            TytoType::Optional(inner) => TytoType::Optional(Box::new(inner.duplicate())),
        }
    }
}

impl Clone for TytoType {
    fn clone(&self) -> (r: TytoType)
        ensures
            r == *self,
    {
        self.duplicate()
    }
}

impl Field {
    /// A copy of this field.
    pub fn duplicate(&self) -> (r: Field)
        ensures
            r@ == self@,
    {
        Field { name: self.name.clone(), field_type: self.field_type.duplicate() }
    }
}

/// Appends copies of `src` to `dst`.
fn extend_fields(dst: &mut Vec<Field>, src: &Vec<Field>)
    ensures
        fields_view(final(dst)@) == fields_view(old(dst)@) + fields_view(src@),
{
    let mut i: usize = 0;
    while i < src.len()
        invariant
            0 <= i <= src@.len(),
            fields_view(dst@) == fields_view(old(dst)@) + fields_view(src@.take(i as int)),
        decreases src@.len() - i,
    {
        let f = src[i].duplicate();
        let ghost prev = dst@;
        dst.push(f);
        assert(src@.take(i + 1) == src@.take(i as int).push(src@[i as int]));
        assert(fields_view(dst@) =~= fields_view(prev).push(f@));
        assert(fields_view(src@.take(i + 1)) =~= fields_view(src@.take(i as int)).push(src@[i as int]@));
        assert(fields_view(dst@) =~= fields_view(old(dst)@) + fields_view(src@.take(i + 1)));
        i = i + 1;
    }
    assert(src@.take(src@.len() as int) == src@);
}

impl TytoProgram {
    /// The first state with the given name.
    pub fn find_state(&self, name: &str) -> (r: Option<&State>)
        ensures
            match first_state_named(self@.states, name@) {
                Some(i) => r matches Some(st) && *st == self.states@[i],
                None => r is None,
            },
    {
        let wanted = name.to_owned();
        let mut i: usize = 0;
        while i < self.states.len()
            invariant
                0 <= i <= self.states@.len(),
                wanted@ == name@,
                forall|k: int| 0 <= k < i ==> self.states@[k].name@ != name@,
            decreases self.states@.len() - i,
        {
            if self.states[i].name == wanted {
                proof { lemma_first_state_named(self@.states, name@, i as int); }
                return Some(&self.states[i]);
            }
            i = i + 1;
        }
        proof { lemma_first_state_named_none(self@.states, name@); }
        None
    }
}

proof fn lemma_first_state_named(states: Seq<SpecState>, name: Seq<char>, i: int)
    requires
        0 <= i < states.len(),
        states[i].name == name,
        forall|k: int| 0 <= k < i ==> states[k].name != name,
    ensures
        first_state_named(states, name) == Some(i),
    decreases i,
{
    if i > 0 {
        lemma_first_state_named(states.drop_first(), name, i - 1);
    }
}

proof fn lemma_first_state_named_none(states: Seq<SpecState>, name: Seq<char>)
    requires
        forall|k: int| 0 <= k < states.len() ==> states[k].name != name,
    ensures
        first_state_named(states, name) is None,
    decreases states.len(),
{
    if states.len() > 0 {
        lemma_first_state_named_none(states.drop_first(), name);
    }
}

impl State {
    /// The fields visible in this state: the program's context fields, then its own data fields.
    pub fn all_fields(&self, program: &TytoProgram) -> (r: Vec<Field>)
        ensures
            fields_view(r@) == spec_all_fields(self@, program@),
    {
        let mut fields: Vec<Field> = Vec::new();
        if let Some(ctx) = &program.context {
            extend_fields(&mut fields, &ctx.fields);
        }
        if let Some(data) = &self.data {
            extend_fields(&mut fields, &data.fields);
        }
        assert(fields_view(Seq::<Field>::empty()) =~= Seq::<SpecField>::empty());
        fields
    }
}

} // verus!
