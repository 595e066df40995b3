//! Typed fragments of a structured key or value.
//!
//! A structured text is split on `__`. Its first piece is the header: type
//! descriptors separated by `%`, where a leading `%` is allowed (`%s%d` and
//! `s%d` declare the same two fragments). Each further piece is the value of
//! the descriptor at the same position. The descriptors `s` and `$` declare a
//! string, `d` and `#` a 64-bit decimal integer; any other descriptor declares
//! nothing, and the fragment at its position is absent.
use crate::text::{
    chars_of, decimal, departs_at, format_integer, free_of, is_digit, joined,
    lemma_decimal_reads_back, lemma_parse_format, lemma_split_joined, parse_i64, parse_integer,
    split, split_chars, texts,
};
use vstd::prelude::*;

verus! {

pub const FRAGMENT_SEPARATOR: &'static str = "__";

pub const DESCRIPTOR_SEPARATOR: &'static str = "%";

/// The text between two fragments.
pub open spec fn separator() -> Seq<char> {
    seq!['_', '_']
}

/// The text between two descriptors of a header.
pub open spec fn descriptor_separator() -> Seq<char> {
    seq!['%']
}

/// The descriptors that a header declares, in order.
pub open spec fn descriptors(header: Seq<char>) -> Seq<Seq<char>> {
    let pieces = split(header, descriptor_separator());
    if pieces[0].len() == 0 {
        pieces.skip(1)
    } else {
        pieces
    }
}

/// The `(descriptor, value)` pairs of a structured text: as many as there are
/// both descriptors and values.
pub open spec fn fragments_of(value: Seq<char>) -> Seq<(Seq<char>, Seq<char>)> {
    let pieces = split(value, separator());
    let types = descriptors(pieces[0]);
    let values = pieces.skip(1);
    Seq::new(
        if types.len() <= values.len() {
            types.len()
        } else {
            values.len()
        },
        |i: int| (types[i], values[i]),
    )
}

/// Whether `t` declares a string fragment.
pub open spec fn is_string_descriptor(t: Seq<char>) -> bool {
    t == seq!['s'] || t == seq!['$']
}

/// Whether `t` declares an integer fragment.
pub open spec fn is_integer_descriptor(t: Seq<char>) -> bool {
    t == seq!['d'] || t == seq!['#']
}

/// The string fragment at `position`: present where the position exists, is
/// declared a string and its value is not empty.
pub open spec fn string_fragment(
    fragments: Seq<(Seq<char>, Seq<char>)>,
    position: int,
) -> Option<Seq<char>> {
    if 0 <= position < fragments.len() && is_string_descriptor(fragments[position].0)
        && fragments[position].1.len() > 0 {
        Some(fragments[position].1)
    } else {
        None
    }
}

/// The integer fragment at `position`: present where the position exists, is
/// declared an integer and its value reads as one.
pub open spec fn integer_fragment(
    fragments: Seq<(Seq<char>, Seq<char>)>,
    position: int,
) -> Option<i64> {
    if 0 <= position < fragments.len() && is_integer_descriptor(fragments[position].0) {
        parse_integer(fragments[position].1)
    } else {
        None
    }
}

/// The views of a vector of `(descriptor, value)` pairs.
pub open spec fn pairs(v: Seq<(String, String)>) -> Seq<(Seq<char>, Seq<char>)> {
    v.map_values(|p: (String, String)| (p.0@, p.1@))
}

/// The view of an optional string.
pub open spec fn text(o: Option<String>) -> Option<Seq<char>> {
    match o {
        Some(s) => Some(s@),
        None => None,
    }
}

/// Splits a structured text into its `(descriptor, value)` pairs.
pub fn split_to_fragments(value: &String) -> (fragments: Vec<(String, String)>)
    ensures
        pairs(fragments@) == fragments_of(value@),
{
    proof {
        reveal_strlit("__");
        reveal_strlit("%");
    }
    let underscores = chars_of(FRAGMENT_SEPARATOR);
    assert(underscores@ =~= separator());
    let percent = chars_of(DESCRIPTOR_SEPARATOR);
    assert(percent@ =~= descriptor_separator());
    let pieces = split_chars(&chars_of(value.as_str()), &underscores);
    let types = split_chars(&chars_of(pieces[0].as_str()), &percent);
    assert(texts(pieces@)[0] == pieces@[0]@);
    assert(texts(types@)[0] == types@[0]@);
    let skipped: usize = if types[0].as_str().is_empty() {
        1
    } else {
        0
    };
    assert(descriptors(pieces@[0]@) =~= texts(types@).skip(skipped as int));
    let mut fragments: Vec<(String, String)> = Vec::new();
    let mut i: usize = 0;
    while skipped + i < types.len() && 1 + i < pieces.len()
        invariant
            skipped <= 1,
            i <= types.len() - skipped,
            i <= pieces.len() - 1,
            fragments.len() == i,
            forall|k: int|
                0 <= k < i ==> (#[trigger] fragments@[k]).0@ == types@[skipped + k]@
                    && fragments@[k].1@ == pieces@[1 + k]@,
        decreases types.len() - i,
    {
        fragments.push((types[skipped + i].clone(), pieces[1 + i].clone()));
        i = i + 1;
    }
    assert(pairs(fragments@) =~= fragments_of(value@)) by {
        let types_spec = descriptors(pieces@[0]@);
        let values_spec = texts(pieces@).skip(1);
        assert(types_spec.len() == types.len() - skipped);
        assert(values_spec.len() == pieces.len() - 1);
        assert forall|k: int| 0 <= k < i implies pairs(fragments@)[k] == (
            types_spec[k],
            values_spec[k],
        ) by {
            assert(texts(types@)[skipped + k] == types@[skipped + k]@);
            assert(texts(pieces@)[1 + k] == pieces@[1 + k]@);
        }
    }
    fragments
}

/// Whether a descriptor declares a string.
pub fn declares_string(descriptor: &String) -> (r: bool)
    ensures
        r == is_string_descriptor(descriptor@),
{
    let chars = chars_of(descriptor.as_str());
    let r = chars.len() == 1 && (chars[0] == 's' || chars[0] == '$');
    assert(r == is_string_descriptor(descriptor@)) by {
        if r {
            assert(descriptor@ =~= seq![chars@[0]]);
        }
    }
    r
}

/// Whether a descriptor declares an integer.
pub fn declares_integer(descriptor: &String) -> (r: bool)
    ensures
        r == is_integer_descriptor(descriptor@),
{
    let chars = chars_of(descriptor.as_str());
    let r = chars.len() == 1 && (chars[0] == 'd' || chars[0] == '#');
    assert(r == is_integer_descriptor(descriptor@)) by {
        if r {
            assert(descriptor@ =~= seq![chars@[0]]);
        }
    }
    r
}

/// The string fragment at `position`, if there is one.
pub fn extract_string_fragment(values: &Vec<(String, String)>, position: usize) -> (r: Option<
    String,
>)
    ensures
        text(r) == string_fragment(pairs(values@), position as int),
{
    if position < values.len() {
        assert(pairs(values@)[position as int] == (
            values@[position as int].0@,
            values@[position as int].1@,
        ));
        if declares_string(&values[position].0) && !values[position].1.as_str().is_empty() {
            return Some(values[position].1.clone());
        }
    }
    None
}

/// The integer fragment at `position`, if there is one.
pub fn extract_integer_fragment(values: &Vec<(String, String)>, position: usize) -> (r: Option<
    i64,
>)
    ensures
        r == integer_fragment(pairs(values@), position as int),
{
    if position < values.len() {
        assert(pairs(values@)[position as int] == (
            values@[position as int].0@,
            values@[position as int].1@,
        ));
        if declares_integer(&values[position].0) {
            return parse_i64(values[position].1.as_str());
        }
    }
    None
}

/// Whether `t` is a descriptor: it declares a string or an integer.
pub open spec fn is_descriptor(t: Seq<char>) -> bool {
    is_string_descriptor(t) || is_integer_descriptor(t)
}

/// The header that declares `descriptors`, with or without a leading `%`.
pub open spec fn header_of(descriptors: Seq<Seq<char>>, leading: bool) -> Seq<char> {
    joined(
        if leading {
            seq![Seq::<char>::empty()] + descriptors
        } else {
            descriptors
        },
        descriptor_separator(),
    )
}

/// The structured text made of `descriptors` and of a value for each.
pub open spec fn structured(descriptors: Seq<Seq<char>>, values: Seq<Seq<char>>, leading: bool) -> Seq<
    char,
> {
    joined(seq![header_of(descriptors, leading)] + values, separator())
}

/// Whether a structured text can be made of `descriptors` and `values`:
/// there is a value for each descriptor, and no value holds two
/// underscores in a row or ends in one.
pub open spec fn well_typed(descriptors: Seq<Seq<char>>, values: Seq<Seq<char>>) -> bool {
    &&& descriptors.len() == values.len()
    &&& forall|i: int| 0 <= i < descriptors.len() ==> is_descriptor(#[trigger] descriptors[i])
    &&& forall|i: int| 0 <= i < values.len() ==> free_of(#[trigger] values[i], separator())
}

/// What is joined of pieces and a separator without `c` is without `c`.
pub proof fn lemma_joined_without(pieces: Seq<Seq<char>>, sep: Seq<char>, c: char)
    requires
        forall|i: int, k: int|
            0 <= i < pieces.len() && 0 <= k < pieces[i].len() ==> #[trigger] pieces[i][k] != c,
        forall|k: int| 0 <= k < sep.len() ==> sep[k] != c,
    ensures
        forall|k: int| 0 <= k < joined(pieces, sep).len() ==> joined(pieces, sep)[k] != c,
    decreases pieces.len(),
{
    if pieces.len() > 1 {
        let others = pieces.drop_first();
        assert forall|i: int, k: int| 0 <= i < others.len() && 0 <= k < others[i].len() implies #[trigger] others[i][k]
            != c by {
            assert(others[i][k] == pieces[i + 1][k]);
        }
        lemma_joined_without(others, sep, c);
        let text = joined(pieces, sep);
        let tail = joined(others, sep);
        assert forall|k: int| 0 <= k < text.len() implies text[k] != c by {
            if k < pieces[0].len() {
                assert(text[k] == pieces[0][k]);
            } else if k < pieces[0].len() + sep.len() {
                assert(text[k] == sep[k - pieces[0].len()]);
            } else {
                assert(text[k] == tail[k - pieces[0].len() - sep.len()]);
            }
        }
    } else if pieces.len() == 1 {
        assert forall|k: int| 0 <= k < pieces[0].len() implies joined(pieces, sep)[k] != c by {
            assert(pieces[0][k] != c);
        }
    }
}

/// A structured text made of descriptors and values splits into them
/// again.
pub proof fn lemma_fragments_round_trip(
    descriptors: Seq<Seq<char>>,
    values: Seq<Seq<char>>,
    leading: bool,
)
    requires
        well_typed(descriptors, values),
    ensures
        fragments_of(structured(descriptors, values, leading)) == Seq::new(
            descriptors.len(),
            |i: int| (descriptors[i], values[i]),
        ),
{
    let percent = descriptor_separator();
    let underscores = separator();
    let declared = if leading {
        seq![Seq::<char>::empty()] + descriptors
    } else {
        descriptors
    };
    let header = header_of(descriptors, leading);
    assert forall|i: int, k: int|
        0 <= i < declared.len() && 0 <= k < declared[i].len() implies #[trigger] declared[i][k]
        != '_' && declared[i][k] != '%' by {
        let at = if leading {
            i - 1
        } else {
            i
        };
        assert(declared[i] == descriptors[at]);
        assert(is_descriptor(descriptors[at]));
    }
    lemma_joined_without(declared, percent, '_');
    assert(free_of(header, underscores)) by {
        assert forall|pos: int| 0 <= pos < header.len() implies #[trigger] departs_at(
            header,
            underscores,
            pos,
        ) by {
            assert(header[pos + 0] != underscores[0]);
        }
    }
    let pieces = seq![header] + values;
    assert forall|i: int| 0 <= i < pieces.len() implies free_of(
        #[trigger] pieces[i],
        underscores,
    ) by {
        if i > 0 {
            assert(pieces[i] == values[i - 1]);
        }
    }
    lemma_split_joined(pieces, underscores);
    let text = structured(descriptors, values, leading);
    assert(split(text, underscores) == pieces);
    assert(pieces[0] == header);
    assert(pieces.skip(1) =~= values);
    assert(self::descriptors(header) =~= descriptors) by {
        if declared.len() == 0 {
            assert(header =~= Seq::<char>::empty());
            assert(split(header, percent) =~= seq![Seq::<char>::empty()]);
        } else {
            assert forall|i: int| 0 <= i < declared.len() implies free_of(
                #[trigger] declared[i],
                percent,
            ) by {
                assert forall|pos: int| 0 <= pos < declared[i].len() implies #[trigger] departs_at(
                    declared[i],
                    percent,
                    pos,
                ) by {
                    assert(declared[i][pos + 0] != percent[0]);
                }
            }
            lemma_split_joined(declared, percent);
            if !leading {
                assert(is_descriptor(descriptors[0]));
            }
        }
    }
    assert(fragments_of(text) =~= Seq::new(
        descriptors.len(),
        |i: int| (descriptors[i], values[i]),
    ));
}

/// A string written into a structured text is extracted from it: the
/// fragment at its position is that string, and no integer.
pub proof fn lemma_string_round_trip(
    descriptors: Seq<Seq<char>>,
    values: Seq<Seq<char>>,
    leading: bool,
    position: int,
)
    requires
        well_typed(descriptors, values),
        0 <= position < descriptors.len(),
        is_string_descriptor(descriptors[position]),
        values[position].len() > 0,
    ensures
        string_fragment(fragments_of(structured(descriptors, values, leading)), position) == Some(
            values[position],
        ),
        integer_fragment(fragments_of(structured(descriptors, values, leading)), position)
            is None,
{
    lemma_fragments_round_trip(descriptors, values, leading);
    let t = descriptors[position];
    assert(t[0] == 's' || t[0] == '$');
    assert(seq!['d'][0] == 'd' && seq!['#'][0] == '#');
}

/// The decimal text of an integer can be written into a structured text.
pub proof fn lemma_decimal_is_free(v: i64)
    ensures
        free_of(format_integer(v as int), separator()),
{
    let text = format_integer(v as int);
    assert forall|pos: int| 0 <= pos < text.len() implies #[trigger] departs_at(
        text,
        separator(),
        pos,
    ) by {
        if v < 0 {
            lemma_decimal_reads_back((-v) as nat);
            if pos > 0 {
                assert(is_digit(decimal((-v) as nat)[pos - 1]));
            }
        } else {
            lemma_decimal_reads_back(v as nat);
            assert(is_digit(decimal(v as nat)[pos]));
        }
        assert(text[pos + 0] != separator()[0]);
    }
}

/// An integer written into a structured text is extracted from it: the
/// fragment at its position is that integer, and no string.
pub proof fn lemma_integer_round_trip(
    descriptors: Seq<Seq<char>>,
    values: Seq<Seq<char>>,
    leading: bool,
    position: int,
    v: i64,
)
    requires
        well_typed(descriptors, values),
        0 <= position < descriptors.len(),
        is_integer_descriptor(descriptors[position]),
        values[position] == format_integer(v as int),
    ensures
        integer_fragment(fragments_of(structured(descriptors, values, leading)), position) == Some(
            v,
        ),
        string_fragment(fragments_of(structured(descriptors, values, leading)), position)
            is None,
{
    lemma_fragments_round_trip(descriptors, values, leading);
    lemma_parse_format(v);
    let t = descriptors[position];
    assert(t[0] == 'd' || t[0] == '#');
    assert(seq!['s'][0] == 's' && seq!['$'][0] == '$');
}

} // verus!
