//! The display form of a JSON tree: indented, with the anchor of every value
//! in a comment line above it.

use crate::json::canon::{
    canonical, compute_json_anchor, json_anchor, key_order, keys_of, lemma_key_order, push_quoted,
    quoted, sorted_key_order, write_canonical,
};
use crate::json::path::{index_step, item_path, key_step, member_path};
use crate::json::value::{
    lemma_array_view, lemma_object_view, members_view, values_view, Json, JsonValue,
};
use crate::text::concat_all;
use vstd::prelude::*;

verus! {

/// A comma, where one is due.
pub open spec fn comma(due: bool) -> Seq<char> {
    if due {
        seq![',']
    } else {
        Seq::empty()
    }
}

/// The comment line with the anchor of `j` at `path`, behind `indent`.
pub open spec fn anchor_line(indent: Seq<char>, path: Seq<char>, j: Json) -> Seq<char> {
    indent + "// "@ + json_anchor(path, j) + seq!['\n']
}

/// `j` is an object or an array.
pub open spec fn is_container(j: Json) -> bool {
    j is Object || j is Array
}

/// The lines of the value `j` at `path`, behind `indent`, with a comma
/// behind it where one is due. A value that is neither object nor array
/// takes one line. An empty object or array takes one line. Else the
/// opening bracket, a block for each member or item, and the closing
/// bracket; members come in the order of their keys.
pub open spec fn rendered(j: Json, path: Seq<char>, indent: Seq<char>, due: bool) -> Seq<char>
    decreases j, 1int,
{
    match j {
        Json::Object(members) => if members.len() == 0 {
            indent + "{}"@ + comma(due) + seq!['\n']
        } else {
            indent + "{\n"@ + concat_all(member_blocks(members, path, indent)) + indent + "}"@
                + comma(due) + seq!['\n']
        },
        Json::Array(items) => if items.len() == 0 {
            indent + "[]"@ + comma(due) + seq!['\n']
        } else {
            indent + "[\n"@ + concat_all(item_blocks(items, path, indent)) + indent + "]"@ + comma(
                due,
            ) + seq!['\n']
        },
        _ => indent + canonical(j) + comma(due) + seq!['\n'],
    }
}

/// The block of a member: its anchor line, then its key as a string and a
/// colon, then its value: on the same line where it takes one, else from the
/// next line on.
pub open spec fn member_block(
    key: Seq<char>,
    child: Json,
    path: Seq<char>,
    indent: Seq<char>,
    last: bool,
) -> Seq<char>
    decreases child, 2int,
{
    let inner = indent + "  "@;
    let child_path = path + key_step(key);
    anchor_line(inner, child_path, child) + inner + quoted(key) + ": "@ + (if is_container(child) {
        seq!['\n'] + rendered(child, child_path, inner, !last)
    } else {
        canonical(child) + comma(!last) + seq!['\n']
    })
}

/// The block of an item: its anchor line, then its value.
pub open spec fn item_block(
    item: Json,
    index: nat,
    path: Seq<char>,
    indent: Seq<char>,
    last: bool,
) -> Seq<char>
    decreases item, 2int,
{
    let inner = indent + "  "@;
    let child_path = path + index_step(index);
    anchor_line(inner, child_path, item) + rendered(item, child_path, inner, !last)
}

/// The blocks of the members of an object, in the order of their keys.
pub open spec fn member_blocks(
    members: Seq<(Seq<char>, Json)>,
    path: Seq<char>,
    indent: Seq<char>,
) -> Seq<Seq<char>>
    decreases members, 0int,
{
    Seq::new(
        members.len(),
        |r: int|
            {
                let k = key_order(keys_of(members), members.len() as int)[r];
                if 0 <= k < members.len() {
                    member_block(members[k].0, members[k].1, path, indent, r + 1 == members.len())
                } else {
                    Seq::empty()
                }
            },
    )
}

/// The blocks of the items of an array, in order.
pub open spec fn item_blocks(items: Seq<Json>, path: Seq<char>, indent: Seq<char>) -> Seq<Seq<char>>
    decreases items, 0int,
{
    Seq::new(
        items.len(),
        |i: int|
            if 0 <= i < items.len() {
                item_block(items[i], i as nat, path, indent, i + 1 == items.len())
            } else {
                Seq::empty()
            },
    )
}

/// The blocks up to one more are the blocks so far and that one.
pub proof fn lemma_concat_next(blocks: Seq<Seq<char>>, n: int)
    requires
        0 <= n < blocks.len(),
    ensures
        concat_all(blocks.take(n + 1)) == concat_all(blocks.take(n)) + blocks[n],
{
    assert(blocks.take(n + 1).drop_last() =~= blocks.take(n));
}

/// The display form of a tree: the anchor line of the root, then the root.
pub open spec fn anchored(j: Json) -> Seq<char> {
    anchor_line(Seq::empty(), seq!['$'], j) + rendered(j, seq!['$'], Seq::empty(), false)
}

/// Calls `serde_json::to_string` on a string. What it gives, where it gives
/// anything, is the string between double quotes with the escapes of
/// `quoted`: the short escapes for `"`, `\`, backspace, tab, line feed, form
/// feed and carriage return, `\u00XX` in lower-case hex for the other
/// characters below U+0020, and every other character as it is. The
/// contract does not say that it gives something.
#[verifier::external_body]
fn json_string(s: &str) -> (r: Option<String>)
    ensures
        r matches Some(t) ==> t@ == quoted(s@),
{
    serde_json::to_string(s).ok()
}

/// Appends `s` as a JSON string.
pub fn push_json_string(out: &mut String, s: &str)
    ensures
        final(out)@ == old(out)@ + quoted(s@),
{
    match json_string(s) {
        Some(t) => {
            out.append(t.as_str());
        },
        None => {
            push_quoted(out, s);
        },
    }
}

/// Appends the text of a value that is neither object nor array: `null`,
/// `true`, `false`, a number as it is written, or a string between quotes.
pub fn push_scalar(out: &mut String, v: &JsonValue)
    requires
        !is_container(v@),
    ensures
        final(out)@ == old(out)@ + canonical(v@),
{
    match v {
        JsonValue::String(s) => {
            push_json_string(out, s.as_str());
        },
        _ => {
            write_canonical(out, v);
        },
    }
}

fn push_anchor_line(out: &mut String, indent: &str, path: &str, v: &JsonValue)
    ensures
        final(out)@ == old(out)@ + anchor_line(indent@, path@, v@),
{
    out.append(indent);
    out.append("// ");
    out.append(compute_json_anchor(path, v).as_str());
    out.push('\n');
    assert(out@ =~= old(out)@ + anchor_line(indent@, path@, v@));
}

fn push_comma_and_break(out: &mut String, due: bool)
    ensures
        final(out)@ == old(out)@ + comma(due) + seq!['\n'],
{
    if due {
        out.push(',');
    }
    out.push('\n');
    assert(out@ =~= old(out)@ + comma(due) + seq!['\n']);
}

fn value_is_container(v: &JsonValue) -> (r: bool)
    ensures
        r == is_container(v@),
{
    match v {
        JsonValue::Object(_) => true,
        JsonValue::Array(_) => true,
        _ => false,
    }
}

/// Appends the block of the member `key` with the value `child`.
fn render_member(
    out: &mut String,
    key: &str,
    child: &JsonValue,
    path: &str,
    indent: &str,
    last: bool,
)
    ensures
        final(out)@ == old(out)@ + member_block(key@, child@, path@, indent@, last),
    decreases child, 3int,
{
    let mut inner = indent.to_owned();
    inner.append("  ");
    let child_path = member_path(path, key);
    push_anchor_line(out, inner.as_str(), child_path.as_str(), child);
    out.append(inner.as_str());
    push_json_string(out, key);
    out.append(": ");
    if value_is_container(child) {
        out.push('\n');
        render_value(out, child, child_path.as_str(), inner.as_str(), !last);
    } else {
        push_scalar(out, child);
        push_comma_and_break(out, !last);
    }
    assert(out@ =~= old(out)@ + member_block(key@, child@, path@, indent@, last));
}

/// Appends the block of the item `item` at `index`.
fn render_item(
    out: &mut String,
    item: &JsonValue,
    index: usize,
    path: &str,
    indent: &str,
    last: bool,
)
    ensures
        final(out)@ == old(out)@ + item_block(item@, index as nat, path@, indent@, last),
    decreases item, 3int,
{
    let mut inner = indent.to_owned();
    inner.append("  ");
    let child_path = item_path(path, index);
    push_anchor_line(out, inner.as_str(), child_path.as_str(), item);
    render_value(out, item, child_path.as_str(), inner.as_str(), !last);
    assert(out@ =~= old(out)@ + item_block(item@, index as nat, path@, indent@, last));
}

/// Appends the blocks of the members, in the order of their keys.
#[verifier::loop_isolation(false)]
fn render_members(out: &mut String, members: &Vec<(String, JsonValue)>, path: &str, indent: &str)
    ensures
        final(out)@ == old(out)@ + concat_all(
            member_blocks(members_view(members@), path@, indent@),
        ),
    decreases members, 0int,
{
    let ghost blocks = member_blocks(members_view(members@), path@, indent@);
    proof {
        lemma_key_order(keys_of(members_view(members@)), members@.len() as int);
    }
    let order = sorted_key_order(members);
    let mut r: usize = 0;
    assert(out@ =~= old(out)@ + concat_all(blocks.take(0)));
    while r < order.len()
        invariant
            r <= order.len(),
            out@ == old(out)@ + concat_all(blocks.take(r as int)),
        decreases order.len() - r,
    {
        let k = order[r];
        assert(order@.map_values(|k: usize| k as int)[r as int] == k);
        render_member(out, members[k].0.as_str(), &members[k].1, path, indent, r + 1 == order.len());
        proof {
            lemma_concat_next(blocks, r as int);
            assert(out@ =~= old(out)@ + concat_all(blocks.take(r + 1)));
        }
        r += 1;
    }
    assert(blocks.take(members@.len() as int) =~= blocks);
}

/// Appends the blocks of the items, in order.
#[verifier::loop_isolation(false)]
fn render_items(out: &mut String, items: &Vec<JsonValue>, path: &str, indent: &str)
    ensures
        final(out)@ == old(out)@ + concat_all(item_blocks(values_view(items@), path@, indent@)),
    decreases items, 0int,
{
    let ghost blocks = item_blocks(values_view(items@), path@, indent@);
    let mut i: usize = 0;
    assert(out@ =~= old(out)@ + concat_all(blocks.take(0)));
    while i < items.len()
        invariant
            i <= items.len(),
            out@ == old(out)@ + concat_all(blocks.take(i as int)),
        decreases items.len() - i,
    {
        render_item(out, &items[i], i, path, indent, i + 1 == items.len());
        proof {
            lemma_concat_next(blocks, i as int);
            assert(out@ =~= old(out)@ + concat_all(blocks.take(i + 1)));
        }
        i += 1;
    }
    assert(blocks.take(items@.len() as int) =~= blocks);
}

/// Appends the lines of an object with these members.
fn render_object(
    out: &mut String,
    members: &Vec<(String, JsonValue)>,
    path: &str,
    indent: &str,
    due: bool,
)
    ensures
        final(out)@ == old(out)@ + rendered(
            Json::Object(members_view(members@)),
            path@,
            indent@,
            due,
        ),
    decreases members, 1int,
{
    let ghost start = out@;
    let ghost want = rendered(Json::Object(members_view(members@)), path@, indent@, due);
    out.append(indent);
    if members.len() == 0 {
        out.append("{}");
        push_comma_and_break(out, due);
        assert(out@ =~= start + want);
    } else {
        out.append("{\n");
        render_members(out, members, path, indent);
        out.append(indent);
        out.append("}");
        push_comma_and_break(out, due);
        assert(out@ =~= start + want);
    }
}

/// Appends the lines of an array with these items.
fn render_array(out: &mut String, items: &Vec<JsonValue>, path: &str, indent: &str, due: bool)
    ensures
        final(out)@ == old(out)@ + rendered(
            Json::Array(values_view(items@)),
            path@,
            indent@,
            due,
        ),
    decreases items, 1int,
{
    let ghost start = out@;
    let ghost want = rendered(Json::Array(values_view(items@)), path@, indent@, due);
    out.append(indent);
    if items.len() == 0 {
        out.append("[]");
        push_comma_and_break(out, due);
        assert(out@ =~= start + want);
    } else {
        out.append("[\n");
        render_items(out, items, path, indent);
        out.append(indent);
        out.append("]");
        push_comma_and_break(out, due);
        assert(out@ =~= start + want);
    }
}

/// Appends the one line of a value that is neither object nor array.
fn render_scalar(out: &mut String, v: &JsonValue, indent: &str, due: bool)
    requires
        !is_container(v@),
    ensures
        final(out)@ == old(out)@ + indent@ + canonical(v@) + comma(due) + seq!['\n'],
{
    let ghost start = out@;
    out.append(indent);
    push_scalar(out, v);
    push_comma_and_break(out, due);
    assert(out@ =~= start + indent@ + canonical(v@) + comma(due) + seq!['\n']);
}

/// Appends the lines of `v` at `path`.
pub fn render_value(out: &mut String, v: &JsonValue, path: &str, indent: &str, due: bool)
    ensures
        final(out)@ == old(out)@ + rendered(v@, path@, indent@, due),
    decreases v, 2int,
{
    match v {
        JsonValue::Object(members) => {
            proof {
                lemma_object_view(*members);
            }
            render_object(out, members, path, indent, due);
        },
        JsonValue::Array(items) => {
            proof {
                lemma_array_view(*items);
            }
            render_array(out, items, path, indent, due);
        },
        _ => {
            render_scalar(out, v, indent, due);
            assert(old(out)@ + indent@ + canonical(v@) + comma(due) + seq!['\n'] =~= old(out)@
                + rendered(v@, path@, indent@, due));
        },
    }
}

/// Formats a tree for display: every value below the comment line that
/// holds its anchor `PATH:HASH`, objects and arrays indented by two spaces
/// for each level, the members of an object in the order of their keys.
pub fn format_json_anchors(ast: &JsonValue) -> (r: String)
    ensures
        r@ == anchored(ast@),
{
    let mut r = String::new();
    push_anchor_line(&mut r, "", "$", ast);
    render_value(&mut r, ast, "$", "", false);
    proof {
        reveal_strlit("");
        reveal_strlit("$");
        assert(""@ =~= Seq::<char>::empty());
        assert("$"@ =~= seq!['$']);
        assert(r@ =~= anchored(ast@));
    }
    r
}

} // verus!
