//! The formatter: the canonical text of a value, on one line or indented.

use crate::json::{Json, JsonView};
use vstd::prelude::*;
use vstd::string::StringExecFns;

verus! {

/// `n` spaces.
pub open spec fn spaces(n: nat) -> Seq<char> {
    Seq::new(n, |i: int| ' ')
}

/// What stands before an element or a closing bracket at nesting depth
/// `depth`: nothing where the indent width is zero, else a line break and
/// `depth * width` spaces.
pub open spec fn line_break(depth: nat, width: nat) -> Seq<char> {
    if width == 0 {
        Seq::empty()
    } else {
        seq!['\n'] + spaces(depth * width)
    }
}

/// What parts a key from its value: a colon, and a space where the text is
/// indented.
pub open spec fn colon(width: nat) -> Seq<char> {
    if width == 0 {
        seq![':']
    } else {
        seq![':', ' ']
    }
}

/// A text between quotes.
pub open spec fn quoted(text: Seq<char>) -> Seq<char> {
    seq!['"'] + text + seq!['"']
}

/// The text of `value` at nesting depth `depth`, indented by `width` spaces
/// for each level. A container holds its elements at depth `depth + 1`,
/// each after a [`line_break`] and parted by commas, and its closing
/// bracket after a line break at its own depth.
pub open spec fn format_value(value: JsonView, depth: nat, width: nat) -> Seq<char>
    decreases value,
{
    match value {
        JsonView::Null => seq!['n', 'u', 'l', 'l'],
        JsonView::Bool(b) => if b {
            seq!['t', 'r', 'u', 'e']
        } else {
            seq!['f', 'a', 'l', 's', 'e']
        },
        JsonView::Number(text) => text,
        JsonView::String(text) => quoted(text),
        JsonView::Object(members) => seq!['{'] + format_members(members, depth, width) + line_break(
            depth,
            width,
        ) + seq!['}'],
        JsonView::Array(values) => seq!['['] + format_values(values, depth, width) + line_break(
            depth,
            width,
        ) + seq![']'],
    }
}

/// The comma that parts an element from the `before` elements in front of
/// it.
pub open spec fn comma(before: nat) -> Seq<char> {
    if before == 0 {
        Seq::empty()
    } else {
        seq![',']
    }
}

/// The text of the elements of an array that stands at depth `depth`.
pub open spec fn format_values(values: Seq<JsonView>, depth: nat, width: nat) -> Seq<char>
    decreases values,
{
    if values.len() == 0 {
        Seq::empty()
    } else {
        format_values(values.drop_last(), depth, width) + comma((values.len() - 1) as nat)
            + line_break(depth + 1, width) + format_value(values.last(), depth + 1, width)
    }
}

/// The text of the members of an object that stands at depth `depth`, in
/// the order in which they are held.
pub open spec fn format_members(members: Seq<(Seq<char>, JsonView)>, depth: nat, width: nat) -> Seq<
    char,
>
    decreases members,
{
    if members.len() == 0 {
        Seq::empty()
    } else {
        format_members(members.drop_last(), depth, width) + comma((members.len() - 1) as nat)
            + line_break(depth + 1, width) + quoted(members.last().0) + colon(width)
            + format_value(members.last().1, depth + 1, width)
    }
}

/// The text of `value`, indented by `width` spaces for each level of
/// nesting; with `width` zero, on one line without any space.
pub open spec fn format_spec(value: JsonView, width: nat) -> Seq<char> {
    format_value(value, 0, width)
}

/// Where in the text of the members of an object the key of member
/// `index` begins, quote included.
pub open spec fn key_place(
    members: Seq<(Seq<char>, JsonView)>,
    index: int,
    depth: nat,
    width: nat,
) -> int {
    (format_members(members.take(index), depth, width).len() + comma(index as nat).len()
        + line_break(depth + 1, width).len()) as int
}

/// The text of the first `count` members stands at the front of the text
/// of all.
pub proof fn lemma_members_front(
    members: Seq<(Seq<char>, JsonView)>,
    count: int,
    depth: nat,
    width: nat,
)
    requires
        0 <= count <= members.len(),
    ensures
        format_members(members.take(count), depth, width).is_prefix_of(
            format_members(members, depth, width),
        ),
    decreases members.len(),
{
    if count == members.len() {
        assert(members.take(count) =~= members);
    } else {
        lemma_members_front(members.drop_last(), count, depth, width);
        assert(members.drop_last().take(count) =~= members.take(count));
    }
}

/// Members are written in the order in which they are held: the key of
/// each stands, between quotes, at its [`key_place`], and the key of a
/// member held earlier stands earlier in the text.
pub proof fn lemma_members_written_in_order(
    members: Seq<(Seq<char>, JsonView)>,
    i: int,
    j: int,
    depth: nat,
    width: nat,
)
    requires
        0 <= i <= j < members.len(),
    ensures
        0 <= key_place(members, i, depth, width),
        key_place(members, i, depth, width) + quoted(members[i].0).len() <= format_members(
            members,
            depth,
            width,
        ).len(),
        format_members(members, depth, width).subrange(
            key_place(members, i, depth, width),
            key_place(members, i, depth, width) + quoted(members[i].0).len(),
        ) == quoted(members[i].0),
        i < j ==> key_place(members, i, depth, width) + quoted(members[i].0).len() <= key_place(
            members,
            j,
            depth,
            width,
        ),
{
    let all = format_members(members, depth, width);
    let upto = format_members(members.take(i + 1), depth, width);
    let place = key_place(members, i, depth, width);
    lemma_member_added(members, i, depth, width);
    lemma_members_front(members, i + 1, depth, width);
    assert(upto.subrange(place, place + quoted(members[i].0).len()) =~= quoted(members[i].0));
    assert(all.subrange(place, place + quoted(members[i].0).len()) =~= quoted(members[i].0)) by {
        assert forall|k: int| 0 <= k < upto.len() implies all[k] == upto[k] by {}
    }
    if i < j {
        lemma_members_front(members.take(j), i + 1, depth, width);
        assert(members.take(j).take(i + 1) =~= members.take(i + 1));
    }
}

/// The text of the first `count` elements of a container.
pub open spec fn format_elements(value: JsonView, count: int, depth: nat, width: nat) -> Seq<char> {
    match value {
        JsonView::Object(members) => format_members(members.take(count), depth, width),
        JsonView::Array(values) => format_values(values.take(count), depth, width),
        _ => Seq::empty(),
    }
}

/// The brackets of a container.
pub open spec fn brackets(value: JsonView) -> (char, char) {
    if value is Object {
        ('{', '}')
    } else {
        ('[', ']')
    }
}

/// Spaces after spaces are spaces.
proof fn lemma_spaces_add(a: nat, b: nat)
    ensures
        spaces(a) + spaces(b) =~= spaces(a + b),
{
}

/// The indentation one level below `indent`.
fn deeper(indent: &str, step: &str, Ghost(depth): Ghost<nat>) -> (child: String)
    requires
        indent@ == spaces(depth * step@.len()),
        step@ == spaces(step@.len()),
    ensures
        child@ == spaces((depth + 1) * step@.len()),
{
    let mut child = String::from_str(indent);
    child.append(step);
    proof {
        lemma_spaces_add(depth * step@.len(), step@.len());
        assert((depth + 1) * step@.len() == depth * step@.len() + step@.len()) by (nonlinear_arith);
    }
    child
}

/// The text of the first `count + 1` members is that of the first `count`
/// and then of one more.
proof fn lemma_member_added(
    members: Seq<(Seq<char>, JsonView)>,
    count: int,
    depth: nat,
    width: nat,
)
    requires
        0 <= count < members.len(),
    ensures
        format_members(members.take(count + 1), depth, width) == format_members(
            members.take(count),
            depth,
            width,
        ) + comma(count as nat) + line_break(depth + 1, width) + quoted(members[count].0) + colon(
            width,
        ) + format_value(members[count].1, depth + 1, width),
{
    assert(members.take(count + 1).drop_last() =~= members.take(count));
}

/// The text of the first `count + 1` values is that of the first `count`
/// and then of one more.
proof fn lemma_value_added(values: Seq<JsonView>, count: int, depth: nat, width: nat)
    requires
        0 <= count < values.len(),
    ensures
        format_values(values.take(count + 1), depth, width) == format_values(
            values.take(count),
            depth,
            width,
        ) + comma(count as nat) + line_break(depth + 1, width) + format_value(
            values[count],
            depth + 1,
            width,
        ),
{
    assert(values.take(count + 1).drop_last() =~= values.take(count));
}

/// Appends the comma that parts the element at place `index` from those in
/// front of it.
fn separator(out: &mut String, index: usize)
    ensures
        final(out)@ == old(out)@ + comma(index as nat),
{
    if index != 0 {
        proof {
            reveal_strlit(",");
        }
        out.append(",");
        assert(out@ =~= old(out)@ + seq![',']);
    } else {
        assert(out@ =~= old(out)@ + Seq::<char>::empty());
    }
}

/// Appends a line break and the indentation `indent`, where the text is
/// indented at all.
fn new_line(
    out: &mut String,
    indent: &str,
    pretty: bool,
    Ghost(depth): Ghost<nat>,
    Ghost(width): Ghost<nat>,
)
    requires
        indent@ == spaces(depth * width),
        pretty == (width != 0),
    ensures
        final(out)@ == old(out)@ + line_break(depth, width),
{
    if pretty {
        proof {
            reveal_strlit("\n");
        }
        out.append("\n");
        out.append(indent);
        assert(out@ =~= old(out)@ + (seq!['\n'] + spaces(depth * width)));
    } else {
        assert(out@ =~= old(out)@ + Seq::<char>::empty());
    }
}

/// Appends the key of a member between quotes, and the colon after it.
fn member_key(out: &mut String, key: &str, pretty: bool, Ghost(width): Ghost<nat>)
    requires
        pretty == (width != 0),
    ensures
        final(out)@ == old(out)@ + quoted(key@) + colon(width),
{
    proof {
        reveal_strlit("\"");
        reveal_strlit(": ");
        reveal_strlit(":");
    }
    out.append("\"");
    out.append(key);
    out.append("\"");
    if pretty {
        out.append(": ");
        assert(out@ =~= old(out)@ + quoted(key@) + seq![':', ' ']);
    } else {
        out.append(":");
        assert(out@ =~= old(out)@ + quoted(key@) + seq![':']);
    }
}

/// Appends the bracket that opens or closes an object or an array.
fn bracket(out: &mut String, object: bool, closing: bool)
    ensures
        final(out)@ == old(out)@.push(
            if object {
                if closing {
                    '}'
                } else {
                    '{'
                }
            } else {
                if closing {
                    ']'
                } else {
                    '['
                }
            },
        ),
{
    proof {
        reveal_strlit("{");
        reveal_strlit("}");
        reveal_strlit("[");
        reveal_strlit("]");
    }
    if object {
        if closing {
            out.append("}");
            assert(out@ =~= old(out)@.push('}'));
        } else {
            out.append("{");
            assert(out@ =~= old(out)@.push('{'));
        }
    } else {
        if closing {
            out.append("]");
            assert(out@ =~= old(out)@.push(']'));
        } else {
            out.append("[");
            assert(out@ =~= old(out)@.push('['));
        }
    }
}

/// Appends the text of the container `val`: its brackets, and between them
/// its elements, parted by commas.
fn comma_builder<'a>(
    val: &Json<'a>,
    indent: &str,
    step: &str,
    out: &mut String,
    Ghost(depth): Ghost<nat>,
)
    requires
        val is Object || val is Array,
        indent@ == spaces(depth * step@.len()),
        step@ == spaces(step@.len()),
    ensures
        final(out)@ == old(out)@ + format_value(val@, depth, step@.len()),
    decreases val, 0int,
{
    let ghost width = step@.len();
    let ghost start = out@;
    let pretty = !step.is_empty();
    let child = deeper(indent, step, Ghost(depth));
    let (object, length) = match val {
        Json::Object(members) => (true, members.entries.len()),
        Json::Array(values) => (false, values.len()),
        _ => (false, 0),
    };
    bracket(out, object, false);
    proof {
        match val@ {
            JsonView::Object(members) => {
                assert(members.take(0) =~= Seq::empty());
            },
            JsonView::Array(values) => {
                assert(values.take(0) =~= Seq::empty());
            },
            _ => {},
        }
        assert(out@ =~= start + seq![brackets(val@).0] + format_elements(val@, 0, depth, width));
    }
    let mut index: usize = 0;
    while index < length
        invariant
            val is Object || val is Array,
            val matches Json::Object(members) ==> length == members.entries.len(),
            val matches Json::Array(values) ==> length == values.len(),
            index <= length,
            width == step@.len(),
            pretty == (width != 0),
            step@ == spaces(width),
            child@ == spaces((depth + 1) * width),
            out@ == start + seq![brackets(val@).0] + format_elements(
                val@,
                index as int,
                depth,
                width,
            ),
        decreases length - index,
    {
        separator(out, index);
        new_line(out, child.as_str(), pretty, Ghost(depth + 1), Ghost(width));
        match val {
            Json::Object(members) => {
                member_key(out, members.entries[index].0, pretty, Ghost(width));
                value(&members.entries[index].1, child.as_str(), step, out, Ghost(depth + 1));
                proof {
                    lemma_member_added(members@, index as int, depth, width);
                }
            },
            Json::Array(values) => {
                value(&values[index], child.as_str(), step, out, Ghost(depth + 1));
                proof {
                    lemma_value_added(val@->Array_0, index as int, depth, width);
                }
            },
            _ => {},
        }
        assert(out@ =~= start + seq![brackets(val@).0] + format_elements(
            val@,
            index + 1,
            depth,
            width,
        ));
        index += 1;
    }
    proof {
        match val {
            Json::Object(members) => {
                assert(members@.len() == length);
                assert(members@.take(length as int) =~= members@);
            },
            Json::Array(values) => {
                assert(val@->Array_0.len() == length);
                assert(val@->Array_0.take(length as int) =~= val@->Array_0);
            },
            _ => {},
        }
    }
    new_line(out, indent, pretty, Ghost(depth), Ghost(width));
    bracket(out, object, true);
    assert(out@ =~= old(out)@ + format_value(val@, depth, width));
}

/// Appends the text of `val`.
fn value<'a>(val: &Json<'a>, indent: &str, step: &str, out: &mut String, Ghost(depth): Ghost<nat>)
    requires
        indent@ == spaces(depth * step@.len()),
        step@ == spaces(step@.len()),
    ensures
        final(out)@ == old(out)@ + format_value(val@, depth, step@.len()),
    decreases val, 1int,
{
    match val {
        Json::Null => {
            proof {
                reveal_strlit("null");
            }
            out.append("null");
            assert(out@ =~= old(out)@ + seq!['n', 'u', 'l', 'l']);
        },
        Json::Bool(b) => {
            proof {
                reveal_strlit("true");
                reveal_strlit("false");
            }
            if *b {
                out.append("true");
                assert(out@ =~= old(out)@ + seq!['t', 'r', 'u', 'e']);
            } else {
                out.append("false");
                assert(out@ =~= old(out)@ + seq!['f', 'a', 'l', 's', 'e']);
            }
        },
        Json::Number(n) => {
            out.append(n);
        },
        Json::String(s) => {
            proof {
                reveal_strlit("\"");
            }
            out.append("\"");
            out.append(s);
            out.append("\"");
            assert(out@ =~= old(out)@ + quoted(s@));
        },
        Json::Object(_) => comma_builder(val, indent, step, out, Ghost(depth)),
        Json::Array(_) => comma_builder(val, indent, step, out, Ghost(depth)),
    }
}

/// The text of `val`, indented by `indent_length` spaces for each level of
/// nesting. With `indent_length` zero the text is on one line and holds no
/// space outside strings.
pub fn format_json<'a>(val: Json<'a>, indent_length: usize) -> (text: String)
    ensures
        text@ == format_spec(val@, indent_length as nat),
{
    let mut step = String::new();
    let mut count: usize = 0;
    while count < indent_length
        invariant
            count <= indent_length,
            step@ == spaces(count as nat),
        decreases indent_length - count,
    {
        proof {
            reveal_strlit(" ");
            lemma_spaces_add(count as nat, 1);
        }
        step.append(" ");
        assert(" "@ =~= spaces(1));
        count += 1;
    }
    let mut out = String::new();
    let indent = "";
    proof {
        reveal_strlit("");
        assert(indent@ =~= spaces(0));
        assert(0 * step@.len() == 0);
    }
    value(&val, indent, step.as_str(), &mut out, Ghost(0));
    assert(out@ =~= format_value(val@, 0, indent_length as nat));
    out
}

} // verus!
