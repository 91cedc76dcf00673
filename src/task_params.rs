//! How a field of a task-argument struct is declared as a task parameter:
//! its name, its description from the doc comment, and its kind from the
//! field's type.

use vstd::prelude::*;
use convert_case::{Case, Casing};
use crate::doc::{doc_text, format_doc_comment, is_blank, whitespace};

verus! {

/// Kind of a parameter that may take several values.
#[derive(Clone, Copy, Debug, PartialEq, Eq, Structural)]
pub enum VariadicParamType {
    /// Several values (`Vec<T>`).
    Vec,
    /// One value.
    Plain,
}

/// Kind of a task parameter, by the type of its field.
#[derive(Clone, Copy, Debug, PartialEq, Eq, Structural)]
pub enum OptionalParamType {
    /// `Option<T>`: an optional parameter, variadic for `Option<Vec<T>>`.
    Option(VariadicParamType),
    /// `Vec<T>`: a variadic positional parameter.
    Vec,
    /// Any other type: a required parameter.
    Plain,
    /// `bool`: a flag.
    Flag,
}

/// The shape of a field's type, as far as the kind of parameter depends on it.
pub enum FieldType {
    /// A path type: the identifier of its last segment, and the first generic
    /// argument of that segment when there is one and it is a type.
    Path { ident: String, arg: Option<Box<FieldType>> },
    /// Any type that is not a path (a reference, a tuple, an array, ...).
    Other,
}

/// Why a field cannot be declared as a task parameter.
#[derive(Clone, Copy, Debug, PartialEq, Eq, Structural)]
pub enum ParamTypeError {
    /// The field's type, or the argument of its `Option`, is not a path.
    NotAPath,
    /// An `Option` or a `Vec` without a type argument.
    MissingGenericArgument,
}

/// The kind of parameter for a field of type `t`.
pub open spec fn param_type_of(t: FieldType) -> Result<OptionalParamType, ParamTypeError> {
    match t {
        FieldType::Other => Err(ParamTypeError::NotAPath),
        FieldType::Path { ident, arg } => if ident@ == "Option"@ {
            match arg {
                None => Err(ParamTypeError::MissingGenericArgument),
                Some(inner) => match *inner {
                    FieldType::Other => Err(ParamTypeError::NotAPath),
                    FieldType::Path { ident: inner_ident, arg: inner_arg } => if inner_ident@ == "Vec"@ {
                        match inner_arg {
                            None => Err(ParamTypeError::MissingGenericArgument),
                            Some(_) => Ok(OptionalParamType::Option(VariadicParamType::Vec)),
                        }
                    } else {
                        Ok(OptionalParamType::Option(VariadicParamType::Plain))
                    },
                },
            }
        } else if ident@ == "Vec"@ {
            match arg {
                None => Err(ParamTypeError::MissingGenericArgument),
                Some(_) => Ok(OptionalParamType::Vec),
            }
        } else if ident@ == "bool"@ {
            Ok(OptionalParamType::Flag)
        } else {
            Ok(OptionalParamType::Plain)
        },
    }
}

fn is_word(s: &String, w: &str) -> (r: bool)
    ensures
        r == (s@ == w@),
{
    let t = String::from_str(w);
    *s == t
}

/// The kind of parameter for a field of type `ty` (see [`param_type_of`]).
pub fn extract_field_param_type(ty: &FieldType) -> (r: Result<OptionalParamType, ParamTypeError>)
    ensures
        r == param_type_of(*ty),
{
    match ty {
        FieldType::Other => Err(ParamTypeError::NotAPath),
        FieldType::Path { ident, arg } => {
            if is_word(ident, "Option") {
                match arg {
                    None => Err(ParamTypeError::MissingGenericArgument),
                    Some(inner) => match &**inner {
                        FieldType::Other => Err(ParamTypeError::NotAPath),
                        FieldType::Path { ident: inner_ident, arg: inner_arg } => {
                            if is_word(inner_ident, "Vec") {
                                if inner_arg.is_some() {
                                    Ok(OptionalParamType::Option(VariadicParamType::Vec))
                                } else {
                                    Err(ParamTypeError::MissingGenericArgument)
                                }
                            } else {
                                Ok(OptionalParamType::Option(VariadicParamType::Plain))
                            }
                        },
                    },
                }
            } else if is_word(ident, "Vec") {
                if arg.is_some() {
                    Ok(OptionalParamType::Vec)
                } else {
                    Err(ParamTypeError::MissingGenericArgument)
                }
            } else if is_word(ident, "bool") {
                Ok(OptionalParamType::Flag)
            } else {
                Ok(OptionalParamType::Plain)
            }
        },
    }
}

/// A snake-case identifier written in camel case, as convert_case does it.
pub uninterp spec fn snake_to_camel(s: Seq<char>) -> Seq<char>;

/// Relies on convert_case's `from_case(Case::Snake).to_case(Case::Camel)`:
/// the identifier split at its underscores and written in camel case; the
/// result depends on the text alone.
#[verifier::external_body]
fn camel_case(s: &str) -> (r: String)
    ensures
        r@ == snake_to_camel(s@),
{
    s.from_case(Case::Snake).to_case(Case::Camel)
}

/// Every character of `s` is white space.
pub open spec fn blank(s: Seq<char>) -> bool {
    forall|i: int| 0 <= i < s.len() ==> whitespace(#[trigger] s[i])
}

/// The pieces of `s` between its line feeds (one piece when it has none).
pub open spec fn split_lf(s: Seq<char>) -> Seq<Seq<char>>
    decreases s.len(),
{
    if s.len() == 0 {
        seq![Seq::empty()]
    } else {
        let p = split_lf(s.drop_last());
        if s.last() == '\n' {
            p.push(Seq::empty())
        } else {
            p.update(p.len() - 1, p.last().push(s.last()))
        }
    }
}

proof fn lemma_split_lf_nonempty(s: Seq<char>)
    ensures
        split_lf(s).len() > 0,
    decreases s.len(),
{
    if s.len() > 0 {
        lemma_split_lf_nonempty(s.drop_last());
    }
}

/// `l` without one leading space.
pub open spec fn strip_space(l: Seq<char>) -> Seq<char> {
    if l.len() > 0 && l[0] == ' ' {
        l.drop_first()
    } else {
        l
    }
}

/// The doc attribute values from the first one that is not blank on.
pub open spec fn skip_blank(raw: Seq<Seq<char>>) -> Seq<Seq<char>>
    decreases raw.len(),
{
    if raw.len() > 0 && blank(raw[0]) {
        skip_blank(raw.drop_first())
    } else {
        raw
    }
}

/// The lines of all values, each without one leading space.
pub open spec fn lines_of(raw: Seq<Seq<char>>) -> Seq<Seq<char>>
    decreases raw.len(),
{
    if raw.len() == 0 {
        Seq::empty()
    } else {
        lines_of(raw.drop_last()) + split_lf(raw.last()).map_values(|l: Seq<char>| strip_space(l))
    }
}

/// `ls` without its trailing blank lines.
pub open spec fn drop_trailing_blank(ls: Seq<Seq<char>>) -> Seq<Seq<char>>
    decreases ls.len(),
{
    if ls.len() > 0 && blank(ls.last()) {
        drop_trailing_blank(ls.drop_last())
    } else {
        ls
    }
}

/// The lines of a doc comment given as the values of its doc attributes.
pub open spec fn doc_lines_of(raw: Seq<Seq<char>>) -> Seq<Seq<char>> {
    drop_trailing_blank(lines_of(skip_blank(raw)))
}

/// The values of a sequence of strings.
pub open spec fn strings_view(v: Seq<String>) -> Seq<Seq<char>> {
    v.map_values(|s: String| s@)
}

/// The pieces of `s` between its line feeds (see [`split_lf`]).
fn split_lines(s: &str) -> (r: Vec<String>)
    ensures
        strings_view(r@) == split_lf(s@),
{
    let n = s.unicode_len();
    let mut pieces: Vec<String> = Vec::new();
    let mut start: usize = 0;
    let mut i: usize = 0;
    assert(s@.subrange(0, 0) =~= Seq::<char>::empty());
    assert(strings_view(pieces@) + seq![s@.subrange(0, 0)] =~= split_lf(s@.subrange(0, 0)));
    while i < n
        invariant
            n == s@.len(),
            start <= i <= n,
            strings_view(pieces@) + seq![s@.subrange(start as int, i as int)] == split_lf(s@.subrange(0, i as int)),
        decreases n - i,
    {
        let c = s.get_char(i);
        let ghost pre = split_lf(s@.subrange(0, i as int));
        let ghost next = s@.subrange(0, i + 1);
        assert(next.drop_last() =~= s@.subrange(0, i as int));
        assert(next.last() == c);
        if c == '\n' {
            let piece = String::from_str(s.substring_char(start, i));
            let ghost old_pieces = pieces@;
            pieces.push(piece);
            assert(strings_view(pieces@) =~= strings_view(old_pieces) + seq![s@.subrange(start as int, i as int)]);
            start = i + 1;
            assert(s@.subrange(start as int, i + 1) =~= Seq::<char>::empty());
            assert(strings_view(pieces@) + seq![s@.subrange(start as int, i + 1)] =~= pre.push(Seq::empty()));
        } else {
            assert(s@.subrange(start as int, i + 1) =~= s@.subrange(start as int, i as int).push(c));
            assert(strings_view(pieces@) + seq![s@.subrange(start as int, i + 1)]
                =~= pre.update(pre.len() - 1, pre.last().push(c)));
        }
        i = i + 1;
    }
    let piece = String::from_str(s.substring_char(start, n));
    let ghost old_pieces = pieces@;
    pieces.push(piece);
    assert(s@.subrange(0, n as int) =~= s@);
    assert(strings_view(pieces@) =~= strings_view(old_pieces) + seq![s@.subrange(start as int, n as int)]);
    pieces
}

/// `l` without one leading space.
fn strip_one_space(l: &str) -> (r: String)
    ensures
        r@ == strip_space(l@),
{
    let n = l.unicode_len();
    if n > 0 && l.get_char(0) == ' ' {
        let r = String::from_str(l.substring_char(1, n));
        assert(l@.subrange(1, n as int) =~= l@.drop_first());
        r
    } else {
        String::from_str(l)
    }
}

/// The lines of a doc comment given as the values of its doc attributes:
/// leading blank values skipped, each value split at its line feeds, one
/// leading space removed from each line, trailing blank lines dropped.
pub fn extract_doc(raw: &Vec<String>) -> (r: Vec<String>)
    ensures
        strings_view(r@) == doc_lines_of(strings_view(raw@)),
{
    let ghost rv = strings_view(raw@);
    let mut k: usize = 0;
    assert(rv.subrange(0, rv.len() as int) =~= rv);
    while k < raw.len() && is_blank(raw[k].as_str())
        invariant
            k <= raw.len(),
            rv == strings_view(raw@),
            skip_blank(rv.subrange(k as int, rv.len() as int)) == skip_blank(rv),
        decreases raw.len() - k,
    {
        proof {
            let t = rv.subrange(k as int, rv.len() as int);
            assert(t[0] == raw@[k as int]@);
            assert(t.drop_first() =~= rv.subrange(k + 1, rv.len() as int));
        }
        k = k + 1;
    }
    let ghost kept = rv.subrange(k as int, rv.len() as int);
    assert(k < raw.len() ==> kept[0] == raw@[k as int]@);
    assert(skip_blank(kept) == kept);
    let mut lines: Vec<String> = Vec::new();
    let mut i: usize = k;
    assert(kept.subrange(0, 0) =~= Seq::<Seq<char>>::empty());
    assert(strings_view(lines@) =~= Seq::<Seq<char>>::empty());
    while i < raw.len()
        invariant
            k <= i <= raw.len(),
            rv == strings_view(raw@),
            kept == rv.subrange(k as int, rv.len() as int),
            strings_view(lines@) == lines_of(kept.subrange(0, i - k)),
        decreases raw.len() - i,
    {
        let pieces = split_lines(raw[i].as_str());
        let ghost before = strings_view(lines@);
        let ghost ps = split_lf(raw@[i as int]@);
        let mut j: usize = 0;
        while j < pieces.len()
            invariant
                j <= pieces.len(),
                strings_view(pieces@) == ps,
                strings_view(lines@) == before + ps.subrange(0, j as int).map_values(|l: Seq<char>| strip_space(l)),
            decreases pieces.len() - j,
        {
            let line = strip_one_space(pieces[j].as_str());
            let ghost old_lines = lines@;
            lines.push(line);
            assert(ps[j as int] == pieces@[j as int]@);
            assert(strings_view(lines@) =~= strings_view(old_lines).push(strip_space(ps[j as int])));
            assert(ps.subrange(0, j + 1).map_values(|l: Seq<char>| strip_space(l))
                =~= ps.subrange(0, j as int).map_values(|l: Seq<char>| strip_space(l)).push(strip_space(ps[j as int])));
            j = j + 1;
        }
        proof {
            assert(ps.subrange(0, j as int) =~= ps);
            let pre = kept.subrange(0, i - k);
            let next = kept.subrange(0, i + 1 - k);
            assert(next.drop_last() =~= pre);
            assert(next.last() == raw@[i as int]@);
        }
        i = i + 1;
    }
    assert(kept.subrange(0, i - k) =~= kept);
    let ghost all = strings_view(lines@);
    while lines.len() > 0 && is_blank(lines[lines.len() - 1].as_str())
        invariant
            drop_trailing_blank(strings_view(lines@)) == drop_trailing_blank(all),
        decreases lines.len(),
    {
        let ghost before = lines@;
        lines.pop();
        assert(strings_view(lines@) =~= strings_view(before).drop_last());
        assert(strings_view(before).last() == before.last()@);
    }
    lines
}

/// How one field is declared as a task parameter.
pub struct TaskParam {
    /// The parameter's name: the field's name in camel case.
    pub name: String,
    /// The description: the doc comment's lines, each followed by a line feed.
    pub doc: String,
    pub kind: OptionalParamType,
}

/// The declaration of the field `field_name` of type `ty` with the doc
/// attribute values `doc`.
pub fn describe_field(field_name: &str, doc: &Vec<String>, ty: &FieldType) -> (r: Result<TaskParam, ParamTypeError>)
    ensures
        match param_type_of(*ty) {
            Err(e) => r matches Err(f) && f == e,
            Ok(k) => r matches Ok(p) && p.kind == k && p.name@ == snake_to_camel(field_name@)
                && p.doc@ == doc_text(doc_lines_of(strings_view(doc@))),
        },
{
    let name = camel_case(field_name);
    let lines = extract_doc(doc);
    let text = format_doc_comment(lines.as_slice());
    assert(lines@.map_values(|l: String| l@) == strings_view(lines@));
    match extract_field_param_type(ty) {
        Ok(kind) => Ok(TaskParam { name, doc: text, kind }),
        Err(e) => Err(e),
    }
}

} // verus!
