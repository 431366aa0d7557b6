//! Reading a struct declaration into the plan of a field store.
//!
//! Every field of the struct must be a `Vec<C>` whose element `C` is a component.
//! Attributes say which way a column travels:
//!
//! - `#[forward]` - owner to ghost, overwriting;
//! - `#[reverse]` - ghost to owner, accumulating;
//! - `#[zero]` - a per-step accumulator, reset each step;
//! - none - resized with the mesh, but never across a rank boundary.
//!
//! Parsing is done by `syn`. What it finds is taken over as plain values, and the
//! columns, their directions and every error are decided here.

use quote::ToTokens;
use syn::Data;
use syn::DataStruct;
use syn::DeriveInput;
use syn::Field;
use syn::Fields;
use syn::GenericArgument;
use syn::PathArguments;
use syn::PathSegment;
use syn::Type;
use syn::punctuated::Punctuated;
use syn::token::Comma;
use syn::token::PathSep;
use vstd::prelude::*;

verus! {

// ---------------------------------------------------------------------------
// What the parser finds.
// ---------------------------------------------------------------------------

/// `syn::punctuated::Punctuated`, a list of syntax tree nodes with separators.
#[verifier::external_type_specification]
#[verifier::external_body]
#[verifier::reject_recursive_types(T)]
#[verifier::reject_recursive_types(P)]
pub struct ExPunctuated<T, P>(Punctuated<T, P>);

/// `syn::PathSegment`, one segment of a path.
#[verifier::external_type_specification]
#[verifier::external_body]
pub struct ExPathSegment(PathSegment);

/// `syn::token::PathSep`, the separator of path segments.
#[verifier::external_type_specification]
#[verifier::external_body]
pub struct ExPathSep(PathSep);

/// `syn::GenericArgument`, one generic argument.
#[verifier::external_type_specification]
#[verifier::external_body]
pub struct ExGenericArgument(GenericArgument);

/// `syn::Field`, one field of a struct.
#[verifier::external_type_specification]
#[verifier::external_body]
pub struct ExField(Field);

/// `syn::token::Comma`, the separator of fields and generic arguments.
#[verifier::external_type_specification]
#[verifier::external_body]
pub struct ExComma(Comma);

/// What was declared.
#[derive(Debug, Clone, Copy, PartialEq, Eq, Structural)]
pub enum Shape {
    /// A struct with named fields.
    Named,
    /// A struct without named fields.
    Unnamed,
    /// An enum or a union.
    NotStruct,
}

/// One segment of a type's path.
pub struct Segment {
    /// Its identifier.
    pub ident: String,
    /// Its arguments in angle brackets, if it has any.
    pub args: Option<Punctuated<GenericArgument, Comma>>,
}

/// One field of a struct.
pub struct FieldRecord {
    /// Its name.
    pub name: String,
    /// For each attribute, its identifier if its path is one.
    pub attrs: Vec<Option<String>>,
    /// The segments of its type's path, if the type is a path.
    pub path: Option<Punctuated<PathSegment, PathSep>>,
}

/// A declaration.
pub struct InputRecord {
    /// Its name.
    pub name: String,
    /// What was declared.
    pub shape: Shape,
    /// The named fields.
    pub fields: Punctuated<Field, Comma>,
}

/// What a [`Segment`] says: its identifier and, for each argument in angle
/// brackets, the text of the type if it is one.
pub ghost struct SegmentView {
    /// Its identifier.
    pub ident: Seq<char>,
    /// Its arguments.
    pub args: Option<Seq<Option<Seq<char>>>>,
}

/// What a [`FieldRecord`] says.
pub ghost struct FieldView {
    /// Its name.
    pub name: Seq<char>,
    /// Attribute identifiers.
    pub attrs: Seq<Option<Seq<char>>>,
    /// The segments of its type's path.
    pub path: Option<Seq<SegmentView>>,
}

/// The fields that a list holds, in order.
pub uninterp spec fn fields_in(list: Punctuated<Field, Comma>) -> Seq<FieldView>;

/// The segments that a path holds, in order.
pub uninterp spec fn segments_in(list: Punctuated<PathSegment, PathSep>) -> Seq<SegmentView>;

/// The generic arguments that a list holds, in order: the text of each type, and
/// nothing for any other argument.
pub uninterp spec fn arguments_in(list: Punctuated<GenericArgument, Comma>) -> Seq<
    Option<Seq<char>>,
>;

impl View for Segment {
    type V = SegmentView;

    open spec fn view(&self) -> SegmentView {
        SegmentView {
            ident: self.ident@,
            args: match self.args {
                Some(list) => Some(arguments_in(list)),
                None => None,
            },
        }
    }
}

/// The identifier of an attribute.
pub open spec fn attr_text(attr: Option<String>) -> Option<Seq<char>> {
    match attr {
        Some(s) => Some(s@),
        None => None,
    }
}

impl View for FieldRecord {
    type V = FieldView;

    open spec fn view(&self) -> FieldView {
        FieldView {
            name: self.name@,
            attrs: self.attrs@.map_values(|a: Option<String>| attr_text(a)),
            path: match self.path {
                Some(list) => Some(segments_in(list)),
                None => None,
            },
        }
    }
}

/// What the parser reads from a text: the name, the kind and the named fields of a
/// declaration, or the message of a syntax error.
pub type Reading = Result<(Seq<char>, Shape, Seq<FieldView>), Seq<char>>;

/// `reading` is one that the parser can give for `text`. Several may be: which lexer
/// reads a text depends on where the call is made. Inside a procedural macro it is
/// the compiler's, and it may spell an identifier in another way.
pub uninterp spec fn may_read(
    text: Seq<char>,
    reading: Result<(Seq<char>, Shape, Seq<FieldView>), Seq<char>>,
) -> bool;

/// What a call of the parser gave.
pub open spec fn reading_of(r: Result<InputRecord, String>) -> Reading {
    match r {
        Ok(record) => Ok((record.name@, record.shape, fields_in(record.fields))),
        Err(e) => Err(e@),
    }
}

/// `syn::parse_str` for a `syn::DeriveInput`, with the name, the kind and the named
/// fields of what it finds, or the text of its error. The contract claims that this
/// is a reading of `text`, one of those that the parser can give for it. Which one
/// is not said, nor that another call gives it again. How deeply a text may be
/// nested depends on the stack of the calling thread.
#[verifier::external_body]
fn read_input(text: &str) -> (r: Result<InputRecord, String>)
    ensures
        may_read(text@, reading_of(r)),
{
    let input: DeriveInput = syn::parse_str(text).map_err(|e: syn::Error| e.to_string())?;
    let (shape, fields) = match input.data {
        Data::Struct(DataStruct { fields: Fields::Named(f), .. }) => (Shape::Named, f.named),
        Data::Struct(_) => (Shape::Unnamed, Punctuated::new()),
        _ => (Shape::NotStruct, Punctuated::new()),
    };
    Ok(InputRecord { name: input.ident.to_string(), shape, fields })
}

/// `syn::punctuated::Punctuated::len` of a list of fields. The contract claims that
/// it is the number of fields.
#[verifier::external_body]
fn field_count(list: &Punctuated<Field, Comma>) -> (r: usize)
    ensures
        r == fields_in(*list).len(),
{
    list.len()
}

/// `syn::punctuated::Punctuated::index` of a list of fields, with the name, the
/// attributes' identifiers and the path of the field it returns. The contract claims
/// that it is field number `i`.
#[verifier::external_body]
fn field_at(list: &Punctuated<Field, Comma>, i: usize) -> (r: FieldRecord)
    requires
        i < fields_in(*list).len(),
    ensures
        r@ == fields_in(*list)[i as int],
{
    let f: &Field = &list[i];
    FieldRecord {
        name: f.ident.to_token_stream().to_string(),
        attrs: f.attrs.iter().map(|a| a.path().get_ident().map(|i| i.to_string())).collect(),
        path: match &f.ty {
            Type::Path(p) => Some(p.path.segments.clone()),
            _ => None,
        },
    }
}

/// `syn::punctuated::Punctuated::last` of the segments of a path, with the
/// identifier and the arguments of the segment it returns. The contract claims
/// that it is the last segment, and that there is none only in an empty list.
#[verifier::external_body]
fn last_segment(list: &Punctuated<PathSegment, PathSep>) -> (r: Option<Segment>)
    ensures
        match r {
            Some(segment) => segments_in(*list).len() > 0 && segment@ == segments_in(*list).last(),
            None => segments_in(*list).len() == 0,
        },
{
    match list.last() {
        Some(s) => Some(Segment {
            ident: s.ident.to_string(),
            args: match &s.arguments {
                PathArguments::AngleBracketed(a) => Some(a.args.clone()),
                _ => None,
            },
        }),
        None => None,
    }
}

/// `syn::punctuated::Punctuated::first` of a list of generic arguments, with the
/// text of the argument it returns if that is a type. The contract claims that it
/// is the first argument, and that there is none only in an empty list.
#[verifier::external_body]
fn first_argument(list: &Punctuated<GenericArgument, Comma>) -> (r: Option<Option<String>>)
    ensures
        match r {
            Some(argument) => arguments_in(*list).len() > 0 && attr_text(argument)
                == arguments_in(*list)[0],
            None => arguments_in(*list).len() == 0,
        },
{
    match list.first() {
        Some(GenericArgument::Type(t)) => Some(Some(t.to_token_stream().to_string())),
        Some(_) => Some(None),
        None => None,
    }
}

// ---------------------------------------------------------------------------
// Columns.
// ---------------------------------------------------------------------------

/// One field, with what decides its column.
pub struct FoundField {
    /// Its name.
    pub name: String,
    /// For each attribute, its identifier if its path is one.
    pub attrs: Vec<Option<String>>,
    /// The text of the element type `C`, if its type is a `Vec<C>`.
    pub element: Option<String>,
}

/// What a [`FoundField`] says.
pub ghost struct FoundView {
    /// Its name.
    pub name: Seq<char>,
    /// Attribute identifiers.
    pub attrs: Seq<Option<Seq<char>>>,
    /// The element type.
    pub element: Option<Seq<char>>,
}

impl View for FoundField {
    type V = FoundView;

    open spec fn view(&self) -> FoundView {
        FoundView {
            name: self.name@,
            attrs: self.attrs@.map_values(|a: Option<String>| attr_text(a)),
            element: attr_text(self.element),
        }
    }
}

/// A field that became a column: its name, the text of its `Vec<C>` element type
/// `C`, and which exchange attributes it carries.
pub struct FieldInfo {
    /// Name of the field.
    pub ident: String,
    /// Element type.
    pub inner: String,
    /// Moved from owner to ghost.
    pub is_forward: bool,
    /// Moved from ghost to owner.
    pub is_reverse: bool,
    /// Reset each step.
    pub is_zero: bool,
}

/// The plan of a field store.
pub struct FieldPlan {
    /// Name of the struct.
    pub name: String,
    /// All columns, in order: those to resize. The first gives the length.
    pub columns: Vec<FieldInfo>,
    /// The columns that forward exchange moves, in order. None where the store has
    /// no part in it.
    pub forward: Vec<usize>,
    /// The columns that reverse exchange moves, in order.
    pub reverse: Vec<usize>,
    /// The columns that are reset each step, in order.
    pub zero: Vec<usize>,
}

/// Why a declaration is no field store.
#[derive(Debug, Clone)]
pub enum DeriveError {
    /// The text is no declaration.
    Syntax(String),
    /// A struct without named fields.
    NotNamed,
    /// An enum or a union.
    NotStruct,
    /// This field is not a `Vec<C>`.
    NotVec(String),
}

impl DeriveError {
    /// The message for this error.
    pub fn message(&self) -> (r: String)
        ensures
            match *self {
                DeriveError::Syntax(text) => r@ == text@,
                DeriveError::NotNamed => r@
                    == "FieldData can only be derived for structs with named fields"@,
                DeriveError::NotStruct => r@
                    == "FieldData can only be derived for structs, not enums or unions"@,
                DeriveError::NotVec(ident) => r@ == "FieldData: field `"@ + ident@
                    + "` must be a `Vec<C>` whose element `C` implements `field_core::Component` (e.g. `Vec<f64>`, `Vec<[f64; 3]>`, or a physics `Vec<ConsVar>`)."@,
            },
    {
        match self {
            DeriveError::Syntax(text) => text.as_str().to_owned(),
            DeriveError::NotNamed => {
                "FieldData can only be derived for structs with named fields".to_owned()
            },
            DeriveError::NotStruct => {
                "FieldData can only be derived for structs, not enums or unions".to_owned()
            },
            DeriveError::NotVec(ident) => {
                let mut r: String = "FieldData: field `".to_owned();
                r.append(ident.as_str());
                r.append(
                    "` must be a `Vec<C>` whose element `C` implements `field_core::Component` (e.g. `Vec<f64>`, `Vec<[f64; 3]>`, or a physics `Vec<ConsVar>`).",
                );
                r
            },
        }
    }
}

/// The element type of a `Vec<C>`: the path ends in `Vec` with arguments in angle
/// brackets, the first of which is a type.
pub open spec fn inner_of(path: Option<Seq<SegmentView>>) -> Option<Seq<char>> {
    match path {
        None => None,
        Some(segments) => if segments.len() == 0 || segments.last().ident != "Vec"@ {
            None
        } else {
            match segments.last().args {
                None => None,
                Some(args) => if args.len() == 0 {
                    None
                } else {
                    args[0]
                },
            }
        },
    }
}

/// Whether two texts are equal.
fn same_text(a: &str, b: &str) -> (r: bool)
    ensures
        r == (a@ == b@),
{
    let n: usize = a.unicode_len();
    if n != b.unicode_len() {
        return false;
    }
    let mut i: usize = 0;
    while i < n
        invariant
            i <= n,
            n == a@.len(),
            n == b@.len(),
            forall|j: int| 0 <= j < i ==> #[trigger] a@[j] == b@[j],
        decreases n - i,
    {
        if a.get_char(i) != b.get_char(i) {
            return false;
        }
        i = i + 1;
    }
    assert(a@ =~= b@);
    true
}

/// Extract `C` from a `Vec<C>` field type, or `None` if the field is not a `Vec`.
fn vec_inner(field: &FieldRecord) -> (r: Option<String>)
    ensures
        attr_text(r) == inner_of(field@.path),
{
    match &field.path {
        None => None,
        Some(list) => {
            let last: Option<Segment> = last_segment(list);
            match last {
                None => None,
                Some(segment) => {
                    if !same_text(segment.ident.as_str(), "Vec") {
                        return None;
                    }
                    match &segment.args {
                        None => None,
                        Some(args) => {
                            let first: Option<Option<String>> = first_argument(args);
                            match first {
                                None => None,
                                Some(argument) => argument,
                            }
                        },
                    }
                },
            }
        },
    }
}

/// One of the attributes is the identifier `name`.
pub open spec fn is_tagged(attrs: Seq<Option<Seq<char>>>, name: Seq<char>) -> bool {
    attrs.contains(Some(name))
}

/// Whether one of the attributes is the identifier `name`.
fn has_attr(field: &FoundField, name: &str) -> (r: bool)
    ensures
        r == is_tagged(field@.attrs, name@),
{
    let ghost attrs: Seq<Option<Seq<char>>> = field@.attrs;
    let mut i: usize = 0;
    while i < field.attrs.len()
        invariant
            attrs == field@.attrs,
            i <= field.attrs@.len(),
            forall|j: int| 0 <= j < i ==> #[trigger] attrs[j] != Some(name@),
        decreases field.attrs@.len() - i,
    {
        assert(attrs[i as int] == attr_text(field.attrs@[i as int]));
        if let Some(attr) = &field.attrs[i] {
            if same_text(attr.as_str(), name) {
                return true;
            }
        }
        i = i + 1;
    }
    false
}

/// What is found of a field.
pub open spec fn found_of(field: FieldView) -> FoundView {
    FoundView { name: field.name, attrs: field.attrs, element: inner_of(field.path) }
}

/// What is found of the fields of a list, in order.
fn find_fields(list: &Punctuated<Field, Comma>) -> (r: Vec<FoundField>)
    ensures
        r@.len() == fields_in(*list).len(),
        forall|i: int|
            0 <= i < r@.len() ==> (#[trigger] r@[i])@ == found_of(fields_in(*list)[i]),
{
    let count: usize = field_count(list);
    let mut found: Vec<FoundField> = Vec::new();
    let mut i: usize = 0;
    while i < count
        invariant
            count == fields_in(*list).len(),
            i <= count,
            found@.len() == i,
            forall|j: int|
                0 <= j < i ==> (#[trigger] found@[j])@ == found_of(fields_in(*list)[j]),
        decreases count - i,
    {
        let field: FieldRecord = field_at(list, i);
        let element: Option<String> = vec_inner(&field);
        found.push(FoundField { name: field.name, attrs: field.attrs, element });
        i = i + 1;
    }
    found
}

/// The column has the name and the directions of a field.
pub open spec fn is_column_of(
    info: FieldInfo,
    name: Seq<char>,
    attrs: Seq<Option<Seq<char>>>,
) -> bool {
    &&& info.ident@ == name
    &&& info.is_forward == is_tagged(attrs, "forward"@)
    &&& info.is_reverse == is_tagged(attrs, "reverse"@)
    &&& info.is_zero == is_tagged(attrs, "zero"@)
}

/// The numbers of the marked entries, ascending.
pub open spec fn tagged(marks: Seq<bool>) -> Seq<int>
    decreases marks.len(),
{
    if marks.len() == 0 {
        Seq::empty()
    } else if marks.last() {
        tagged(marks.drop_last()).push(marks.len() - 1)
    } else {
        tagged(marks.drop_last())
    }
}

/// The two ways in which columns cross between ranks.
#[derive(Debug, Clone, Copy, PartialEq, Eq, Structural)]
pub enum Dir {
    /// Owner to ghost.
    Forward,
    /// Ghost to owner.
    Reverse,
}

/// Which columns travel along `dir`.
pub open spec fn marks_along(infos: Seq<FieldInfo>, dir: Dir) -> Seq<bool> {
    infos.map_values(
        |f: FieldInfo|
            match dir {
                Dir::Forward => f.is_forward,
                Dir::Reverse => f.is_reverse,
            },
    )
}

/// Which columns are reset each step.
pub open spec fn zero_marks(infos: Seq<FieldInfo>) -> Seq<bool> {
    infos.map_values(|f: FieldInfo| f.is_zero)
}

/// Column numbers as whole numbers.
pub open spec fn as_ints(list: Seq<usize>) -> Seq<int> {
    list.map_values(|i: usize| i as int)
}

/// The columns that the size, pack and unpack methods of one exchange direction
/// deal with, in order. None where no field is tagged for that direction, so that
/// the store takes no part in it.
fn build_comm(infos: &Vec<FieldInfo>, dir: Dir) -> (r: Vec<usize>)
    ensures
        as_ints(r@) == tagged(marks_along(infos@, dir)),
{
    let ghost marks: Seq<bool> = marks_along(infos@, dir);
    let mut selected: Vec<usize> = Vec::new();
    let mut i: usize = 0;
    assert(as_ints(selected@) =~= tagged(marks.take(0)));
    while i < infos.len()
        invariant
            marks == marks_along(infos@, dir),
            i <= infos@.len(),
            as_ints(selected@) == tagged(marks.take(i as int)),
        decreases infos@.len() - i,
    {
        assert(marks.take(i + 1).drop_last() =~= marks.take(i as int));
        let travels: bool = match dir {
            Dir::Forward => infos[i].is_forward,
            Dir::Reverse => infos[i].is_reverse,
        };
        if travels {
            let ghost before: Seq<usize> = selected@;
            selected.push(i);
            assert(as_ints(selected@) =~= as_ints(before).push(i as int));
        }
        i = i + 1;
    }
    assert(marks.take(i as int) =~= marks);
    selected
}

/// The columns that are reset each step, in order.
fn build_zero(infos: &Vec<FieldInfo>) -> (r: Vec<usize>)
    ensures
        as_ints(r@) == tagged(zero_marks(infos@)),
{
    let ghost marks: Seq<bool> = zero_marks(infos@);
    let mut selected: Vec<usize> = Vec::new();
    let mut i: usize = 0;
    assert(as_ints(selected@) =~= tagged(marks.take(0)));
    while i < infos.len()
        invariant
            marks == zero_marks(infos@),
            i <= infos@.len(),
            as_ints(selected@) == tagged(marks.take(i as int)),
        decreases infos@.len() - i,
    {
        assert(marks.take(i + 1).drop_last() =~= marks.take(i as int));
        if infos[i].is_zero {
            let ghost before: Seq<usize> = selected@;
            selected.push(i);
            assert(as_ints(selected@) =~= as_ints(before).push(i as int));
        }
        i = i + 1;
    }
    assert(marks.take(i as int) =~= marks);
    selected
}

// ---------------------------------------------------------------------------
// The plan.
// ---------------------------------------------------------------------------

/// The number of the first mark from number `from` on that is not set.
pub open spec fn first_unset(marks: Seq<bool>, from: int) -> Option<int>
    decreases marks.len() - from,
{
    if from >= marks.len() {
        None
    } else if !marks[from] {
        Some(from)
    } else {
        first_unset(marks, from + 1)
    }
}

/// Which fields are a `Vec<C>`, by what was found.
pub open spec fn vec_marks(fields: Seq<FoundView>) -> Seq<bool> {
    fields.map_values(|f: FoundView| f.element is Some)
}

/// The plan lists the columns of each kind.
pub open spec fn lists_columns(plan: FieldPlan) -> bool {
    &&& as_ints(plan.forward@) == tagged(marks_along(plan.columns@, Dir::Forward))
    &&& as_ints(plan.reverse@) == tagged(marks_along(plan.columns@, Dir::Reverse))
    &&& as_ints(plan.zero@) == tagged(zero_marks(plan.columns@))
}

/// The plan has a column for every field, in order, with its element type.
pub open spec fn is_plan_of(plan: FieldPlan, name: Seq<char>, fields: Seq<FoundView>) -> bool {
    &&& plan.name@ == name
    &&& plan.columns@.len() == fields.len()
    &&& forall|i: int|
        0 <= i < fields.len() ==> {
            &&& is_column_of(#[trigger] plan.columns@[i], fields[i].name, fields[i].attrs)
            &&& fields[i].element == Some(plan.columns@[i].inner@)
        }
    &&& lists_columns(plan)
}

/// What becomes of a declaration, by what was found of it: an error for anything
/// but a struct with named fields, and for the first field that is not a `Vec<C>`.
pub open spec fn is_outcome(
    r: Result<FieldPlan, DeriveError>,
    name: Seq<char>,
    shape: Shape,
    found: Seq<FoundView>,
) -> bool {
    match shape {
        Shape::NotStruct => r == Err::<FieldPlan, DeriveError>(DeriveError::NotStruct),
        Shape::Unnamed => r == Err::<FieldPlan, DeriveError>(DeriveError::NotNamed),
        Shape::Named => match first_unset(vec_marks(found), 0) {
            Some(i) => r matches Err(DeriveError::NotVec(ident)) && ident@ == found[i].name,
            None => r matches Ok(plan) && is_plan_of(plan, name, found),
        },
    }
}

/// The plan of a field store from what was found of a declaration.
pub fn plan_fields(name: &str, shape: Shape, fields: &Vec<FoundField>) -> (r: Result<
    FieldPlan,
    DeriveError,
>)
    ensures
        is_outcome(r, name@, shape, fields@.map_values(|f: FoundField| f@)),
{
    match shape {
        Shape::NotStruct => {
            return Err(DeriveError::NotStruct);
        },
        Shape::Unnamed => {
            return Err(DeriveError::NotNamed);
        },
        Shape::Named => {},
    }
    let ghost found: Seq<FoundView> = fields@.map_values(|f: FoundField| f@);
    let ghost marks: Seq<bool> = vec_marks(found);
    let mut infos: Vec<FieldInfo> = Vec::new();
    let mut i: usize = 0;
    while i < fields.len()
        invariant
            shape == Shape::Named,
            found == fields@.map_values(|f: FoundField| f@),
            marks == vec_marks(found),
            i <= fields@.len(),
            infos@.len() == i,
            first_unset(marks, i as int) == first_unset(marks, 0),
            forall|j: int|
                0 <= j < i ==> {
                    &&& is_column_of(#[trigger] infos@[j], found[j].name, found[j].attrs)
                    &&& found[j].element == Some(infos@[j].inner@)
                },
        decreases fields@.len() - i,
    {
        let field: &FoundField = &fields[i];
        assert(found[i as int] == field@);
        match &field.element {
            None => {
                return Err(DeriveError::NotVec(field.name.as_str().to_owned()));
            },
            Some(inner) => {
                let info: FieldInfo = FieldInfo {
                    ident: field.name.as_str().to_owned(),
                    inner: inner.as_str().to_owned(),
                    is_forward: has_attr(field, "forward"),
                    is_reverse: has_attr(field, "reverse"),
                    is_zero: has_attr(field, "zero"),
                };
                infos.push(info);
            },
        }
        i = i + 1;
    }
    let forward: Vec<usize> = build_comm(&infos, Dir::Forward);
    let reverse: Vec<usize> = build_comm(&infos, Dir::Reverse);
    let zero: Vec<usize> = build_zero(&infos);
    Ok(FieldPlan { name: name.to_owned(), columns: infos, forward, reverse, zero })
}

/// What is found of the fields of a list.
pub open spec fn all_found(list: Punctuated<Field, Comma>) -> Seq<FoundView> {
    fields_in(list).map_values(|f: FieldView| found_of(f))
}

/// The plan of a field store from a declaration.
pub fn plan_record(record: &InputRecord) -> (r: Result<FieldPlan, DeriveError>)
    ensures
        is_outcome(r, record.name@, record.shape, all_found(record.fields)),
{
    let fields: Vec<FoundField> = find_fields(&record.fields);
    assert(fields@.map_values(|f: FoundField| f@) =~= all_found(record.fields));
    plan_fields(record.name.as_str(), record.shape, &fields)
}

/// What becomes of a text, by what the parser read from it.
pub open spec fn is_outcome_of(r: Result<FieldPlan, DeriveError>, reading: Reading) -> bool {
    match reading {
        Ok(found) => is_outcome(
            r,
            found.0,
            found.1,
            found.2.map_values(|f: FieldView| found_of(f)),
        ),
        Err(e) => r matches Err(DeriveError::Syntax(message)) && message@ == e,
    }
}

/// The plan of a field store from the text of a struct declaration: that of the
/// declaration that the parser reads from it, or its syntax error where it reads
/// none.
pub fn derive_field_data(text: &str) -> (r: Result<FieldPlan, DeriveError>)
    ensures
        exists|reading: Reading| #[trigger]
            may_read(text@, reading) && is_outcome_of(r, reading),
{
    let read: Result<InputRecord, String> = read_input(text);
    let ghost reading: Reading = reading_of(read);
    let r: Result<FieldPlan, DeriveError> = match read {
        Ok(record) => plan_record(&record),
        Err(e) => Err(DeriveError::Syntax(e)),
    };
    assert(may_read(text@, reading) && is_outcome_of(r, reading));
    r
}

/// The first mark that is not set is one of the marks, and those before it are set.
pub proof fn first_unset_is_inside(marks: Seq<bool>, from: int)
    requires
        0 <= from,
    ensures
        match first_unset(marks, from) {
            Some(i) => {
                &&& from <= i < marks.len()
                &&& !marks[i]
                &&& forall|j: int| from <= j < i ==> #[trigger] marks[j]
            },
            None => forall|j: int| from <= j < marks.len() ==> #[trigger] marks[j],
        },
    decreases marks.len() - from,
{
    if from < marks.len() && marks[from] {
        first_unset_is_inside(marks, from + 1);
    }
}

/// An entry is listed exactly if it is marked, and entries are listed in ascending
/// order.
pub proof fn tagged_entries_are_listed(marks: Seq<bool>, i: int)
    ensures
        tagged(marks).contains(i) <==> 0 <= i < marks.len() && marks[i],
        forall|j: int, k: int| 0 <= j < k < tagged(marks).len() ==> tagged(marks)[j] < tagged(marks)[k],
    decreases marks.len(),
{
    if marks.len() > 0 {
        let rest: Seq<bool> = marks.drop_last();
        let sub: Seq<int> = tagged(rest);
        tagged_entries_are_listed(rest, i);
        if marks.last() {
            let all: Seq<int> = sub.push(marks.len() - 1);
            assert(all[sub.len() as int] == marks.len() - 1);
            if sub.contains(i) {
                let j: int = choose|j: int| 0 <= j < sub.len() && sub[j] == i;
                assert(all[j] == i);
            }
            if all.contains(i) && i != marks.len() - 1 {
                let j: int = choose|j: int| 0 <= j < all.len() && all[j] == i;
                assert(sub[j] == i);
            }
            assert forall|j: int, k: int| 0 <= j < k < all.len() implies all[j] < all[k] by {
                if k == sub.len() {
                    tagged_entries_are_listed(rest, sub[j]);
                    assert(sub.contains(sub[j]));
                }
            }
        }
    }
}

/// A plan sends forward the fields with the attribute `forward`, backward those with
/// `reverse`, and resets those with `zero`; its columns are the fields, in order.
pub proof fn plans_list_the_tagged_fields(
    plan: FieldPlan,
    name: Seq<char>,
    fields: Seq<FoundView>,
    i: int,
)
    requires
        is_plan_of(plan, name, fields),
        0 <= i < fields.len(),
    ensures
        plan.columns@[i].ident@ == fields[i].name,
        fields[i].element == Some(plan.columns@[i].inner@),
        as_ints(plan.forward@).contains(i) <==> fields[i].attrs.contains(Some("forward"@)),
        as_ints(plan.reverse@).contains(i) <==> fields[i].attrs.contains(Some("reverse"@)),
        as_ints(plan.zero@).contains(i) <==> fields[i].attrs.contains(Some("zero"@)),
{
    tagged_entries_are_listed(marks_along(plan.columns@, Dir::Forward), i);
    tagged_entries_are_listed(marks_along(plan.columns@, Dir::Reverse), i);
    tagged_entries_are_listed(zero_marks(plan.columns@), i);
    assert(is_column_of(plan.columns@[i], fields[i].name, fields[i].attrs));
}

} // verus!
