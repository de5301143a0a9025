//! JSON values and their canonical text.
use vstd::prelude::*;
use crate::sort::{
    distinct, key_order, lemma_sort_from_distinct, lemma_sort_from_facts, sorted_along,
    sorted_positions,
};
use crate::text::{dec, join, lemma_join_push, push_char, push_dec, push_str};

verus! {

/// A JSON value.
#[derive(Debug)]
pub enum Json {
    Null,
    Bool(bool),
    Number(u64),
    Str(String),
    Array(Vec<Json>),
    Object(Vec<Member>),
}

/// One key and value of a JSON object.
#[derive(Debug)]
pub struct Member {
    pub key: String,
    pub value: Json,
}

/// The model of a JSON value.
pub enum JsonView {
    Null,
    Bool(bool),
    Number(nat),
    Str(Seq<char>),
    Array(Seq<JsonView>),
    Object(Seq<(Seq<char>, JsonView)>),
}

/// The model of a JSON value.
pub open spec fn json_view(j: Json) -> JsonView
    decreases j,
{
    match j {
        Json::Null => JsonView::Null,
        Json::Bool(b) => JsonView::Bool(b),
        Json::Number(n) => JsonView::Number(n as nat),
        Json::Str(s) => JsonView::Str(s@),
        Json::Array(v) => JsonView::Array(
            Seq::new(
                v@.len(),
                |i: int| if 0 <= i < v@.len() { json_view(v@[i]) } else { JsonView::Null },
            ),
        ),
        Json::Object(m) => JsonView::Object(
            Seq::new(
                m@.len(),
                |i: int|
                    if 0 <= i < m@.len() {
                        (m@[i].key@, json_view(m@[i].value))
                    } else {
                        (Seq::empty(), JsonView::Null)
                    },
            ),
        ),
    }
}

impl View for Json {
    type V = JsonView;

    open spec fn view(&self) -> JsonView {
        json_view(*self)
    }
}

/// A lowercase hex digit.
pub open spec fn hex_char(d: nat) -> char {
    if d < 10 {
        (d + 48) as char
    } else {
        (d + 87) as char
    }
}

/// How a character stands inside a JSON string: quote, backslash and
/// control characters escaped, short forms where JSON has them.
pub open spec fn escape_char(c: char) -> Seq<char> {
    if c == '"' {
        seq!['\\', '"']
    } else if c == '\\' {
        seq!['\\', '\\']
    } else if c == '\n' {
        seq!['\\', 'n']
    } else if c == '\r' {
        seq!['\\', 'r']
    } else if c == '\t' {
        seq!['\\', 't']
    } else if c == '\u{8}' {
        seq!['\\', 'b']
    } else if c == '\u{c}' {
        seq!['\\', 'f']
    } else if (c as u32) < 32 {
        seq!['\\', 'u', '0', '0', hex_char((c as u32 / 16) as nat), hex_char((c as u32 % 16) as nat)]
    } else {
        seq![c]
    }
}

/// The escaped characters of `s`.
pub open spec fn escape(s: Seq<char>) -> Seq<char>
    decreases s.len(),
{
    if s.len() == 0 {
        Seq::empty()
    } else {
        escape(s.drop_last()) + escape_char(s.last())
    }
}

/// A JSON string literal.
pub open spec fn quote(s: Seq<char>) -> Seq<char> {
    seq!['"'] + escape(s) + seq!['"']
}

/// The keys of an object's members, in order.
pub open spec fn member_keys(m: Seq<(Seq<char>, JsonView)>) -> Seq<Seq<char>> {
    m.map_values(|p: (Seq<char>, JsonView)| p.0)
}

/// The canonical texts of the elements of an array, in order.
pub open spec fn canon_items(a: Seq<JsonView>) -> Seq<Seq<char>>
    decreases a,
{
    Seq::new(a.len(), |i: int| if 0 <= i < a.len() { canon(a[i]) } else { Seq::empty() })
}

/// The canonical texts `"key": value` of an object's members, in key order
/// (equal keys keep their order).
pub open spec fn canon_members(m: Seq<(Seq<char>, JsonView)>) -> Seq<Seq<char>>
    decreases m,
{
    Seq::new(
        m.len(),
        |k: int|
            {
                let j = key_order(member_keys(m))[k] as int;
                if 0 <= k < m.len() && 0 <= j < m.len() {
                    quote(m[j].0) + ": "@ + canon(m[j].1)
                } else {
                    Seq::empty()
                }
            },
    )
}

/// The canonical text: arrays as `[a, b]`, objects as `{"k": v, ...}` with
/// the members in key order, scalars as JSON writes them.
pub open spec fn canon(v: JsonView) -> Seq<char>
    decreases v,
{
    match v {
        JsonView::Null => "null"@,
        JsonView::Bool(b) => if b {
            "true"@
        } else {
            "false"@
        },
        JsonView::Number(n) => dec(n),
        JsonView::Str(s) => quote(s),
        JsonView::Array(a) => "["@ + join(canon_items(a), ", "@) + "]"@,
        JsonView::Object(m) => "{"@ + join(canon_members(m), ", "@) + "}"@,
    }
}

fn hex_digit(d: u32) -> (c: char)
    requires
        d < 16,
    ensures
        c == hex_char(d as nat),
{
    if d < 10 {
        ((d as u8) + 48u8) as char
    } else {
        ((d as u8) + 87u8) as char
    }
}

fn push_escaped_char(out: &mut String, c: char)
    ensures
        final(out)@ == old(out)@ + escape_char(c),
{
    proof {
        reveal_strlit("\\\"");
        reveal_strlit("\\\\");
        reveal_strlit("\\n");
        reveal_strlit("\\r");
        reveal_strlit("\\t");
        reveal_strlit("\\b");
        reveal_strlit("\\f");
        reveal_strlit("\\u00");
    }
    if c == '"' {
        push_str(out, "\\\"");
    } else if c == '\\' {
        push_str(out, "\\\\");
    } else if c == '\n' {
        push_str(out, "\\n");
    } else if c == '\r' {
        push_str(out, "\\r");
    } else if c == '\t' {
        push_str(out, "\\t");
    } else if c == '\u{8}' {
        push_str(out, "\\b");
    } else if c == '\u{c}' {
        push_str(out, "\\f");
    } else if (c as u32) < 32 {
        push_str(out, "\\u00");
        push_char(out, hex_digit(c as u32 / 16));
        push_char(out, hex_digit(c as u32 % 16));
    } else {
        push_char(out, c);
    }
    assert(out@ =~= old(out)@ + escape_char(c));
}

/// Appends `s` as a JSON string literal.
pub fn push_quoted(out: &mut String, s: &str)
    ensures
        final(out)@ == old(out)@ + quote(s@),
{
    push_char(out, '"');
    let n = s.unicode_len();
    let mut i: usize = 0;
    let ghost mid = out@;
    while i < n
        invariant
            n == s@.len(),
            i <= n,
            mid == old(out)@.push('"'),
            out@ == mid + escape(s@.take(i as int)),
        decreases n - i,
    {
        let c = s.get_char(i);
        push_escaped_char(out, c);
        assert(s@.take(i + 1).drop_last() =~= s@.take(i as int));
        assert(out@ =~= mid + escape(s@.take(i + 1)));
        i += 1;
    }
    assert(s@.take(i as int) =~= s@);
    push_char(out, '"');
    assert(out@ =~= old(out)@ + quote(s@));
}

fn member_key_strings(m: &Vec<Member>) -> (r: Vec<String>)
    ensures
        r.deep_view() == member_keys(members_view(m@)),
{
    let mut out: Vec<String> = Vec::new();
    let mut i: usize = 0;
    while i < m.len()
        invariant
            i <= m.len(),
            out.deep_view() =~= member_keys(members_view(m@)).take(i as int),
        decreases m.len() - i,
    {
        let k = m[i].key.clone();
        let ghost before = out.deep_view();
        out.push(k);
        assert(member_keys(members_view(m@))[i as int] == m@[i as int].key@);
        assert(out.deep_view() =~= before.push(m@[i as int].key@));
        assert(member_keys(members_view(m@)).take(i + 1) =~= member_keys(members_view(m@)).take(
            i as int,
        ).push(m@[i as int].key@));
        i += 1;
    }
    assert(member_keys(members_view(m@)).take(i as int) =~= member_keys(
        members_view(m@),
    ));
    out
}

/// The models of an object's members.
pub open spec fn members_view(m: Seq<Member>) -> Seq<(Seq<char>, JsonView)> {
    Seq::new(
        m.len(),
        |i: int|
            if 0 <= i < m.len() {
                (m[i].key@, m[i].value@)
            } else {
                (Seq::empty(), JsonView::Null)
            },
    )
}

/// Appends the canonical text of `v`.
pub fn write_canonical(out: &mut String, v: &Json)
    ensures
        final(out)@ == old(out)@ + canon(v@),
    decreases v@,
{
    proof {
        reveal_strlit("null");
        reveal_strlit("true");
        reveal_strlit("false");
    }
    match v {
        Json::Null => push_str(out, "null"),
        Json::Bool(b) => if *b {
            push_str(out, "true")
        } else {
            push_str(out, "false")
        },
        Json::Number(n) => push_dec(out, *n),
        Json::Str(s) => push_quoted(out, s.as_str()),
        Json::Array(a) => {
            let ghost av = match v@ {
                JsonView::Array(x) => x,
                _ => Seq::empty(),
            };
            assert(av.len() == a@.len());
            assert(forall|k: int| 0 <= k < a@.len() ==> av[k] == #[trigger] a@[k]@);
            let ghost parts = canon_items(av);
            assert(v@ == JsonView::Array(av));
            push_str(out, "[");
            let ghost mid = out@;
            let mut i: usize = 0;
            while i < a.len()
                invariant
                    i <= a.len(),
                    *v == Json::Array(*a),
                    v@ == JsonView::Array(av),
                    parts == canon_items(av),
                    forall|k: int| 0 <= k < a@.len() ==> av[k] == #[trigger] a@[k]@,
                    av.len() == a@.len(),
                    parts.len() == a@.len(),
                    forall|k: int| 0 <= k < a@.len() ==> #[trigger] parts[k] == canon(a@[k]@),
                    out@ == mid + join(parts.take(i as int), ", "@),
                decreases a.len() - i,
            {
                if i > 0 {
                    push_str(out, ", ");
                }
                proof {
                    broadcast use vstd::std_specs::vec::group_vec_axioms, vstd::seq::group_seq_axioms;
                    assert(decreases_to!(av => av[i as int]));
                    let vv = v@;
                    match vv {
                        JsonView::Array(x) => {
                            assert(decreases_to!(vv => x));
                        },
                        _ => {},
                    }
                    assert(decreases_to!(v@ => av));
                }
                write_canonical(out, &a[i]);
                proof {
                    lemma_join_push(parts.take(i as int), parts[i as int], ", "@);
                    assert(parts.take(i as int).push(parts[i as int]) =~= parts.take(i + 1));
                }
                i += 1;
            }
            assert(parts.take(i as int) =~= parts);
            push_str(out, "]");
            assert(out@ =~= old(out)@ + canon(v@));
        },
        Json::Object(m) => {
            let ghost mv = match v@ {
                JsonView::Object(x) => x,
                _ => Seq::empty(),
            };
            assert(mv =~= members_view(m@));
            let keys = member_key_strings(m);
            let order = sorted_positions(&keys);
            proof {
                lemma_sort_from_facts(member_keys(mv), 0);
            }
            let ghost parts = canon_members(mv);
            assert(v@ == JsonView::Object(mv));
            push_str(out, "{");
            let ghost mid = out@;
            let mut i: usize = 0;
            while i < order.len()
                invariant
                    i <= order.len(),
                    *v == Json::Object(*m),
                    v@ == JsonView::Object(mv),
                    mv == members_view(m@),
                    order@ == key_order(member_keys(mv)),
                    order@.len() == m@.len(),
                    forall|k: int| 0 <= k < order@.len() ==> 0 <= #[trigger] order@[k] < m@.len(),
                    parts.len() == m@.len(),
                    parts == canon_members(mv),
                    out@ == mid + join(parts.take(i as int), ", "@),
                decreases order.len() - i,
            {
                if i > 0 {
                    push_str(out, ", ");
                }
                let j = order[i];
                let ghost before = out@;
                push_quoted(out, m[j].key.as_str());
                push_str(out, ": ");
                proof {
                    broadcast use vstd::std_specs::vec::group_vec_axioms, vstd::seq::group_seq_axioms;
                    let vv = v@;
                    match vv {
                        JsonView::Object(x) => {
                            assert(decreases_to!(vv => x));
                        },
                        _ => {},
                    }
                    assert(decreases_to!(mv => mv[j as int]));
                    let t = mv[j as int];
                    let (tk, tv) = t;
                    assert(decreases_to!(t => tv));
                    assert(mv[j as int].1 == m@[j as int].value@);
                    assert(decreases_to!(v@ => m@[j as int].value@));
                }
                write_canonical(out, &m[j].value);
                proof {
                    assert(mv[j as int] == (m@[j as int].key@, m@[j as int].value@));
                    assert(parts[i as int] == quote(mv[j as int].0) + ": "@ + canon(mv[j as int].1));
                    assert(out@ =~= before + parts[i as int]);
                    lemma_join_push(parts.take(i as int), parts[i as int], ", "@);
                    assert(parts.take(i as int).push(parts[i as int]) =~= parts.take(i + 1));
                }
                i += 1;
            }
            assert(parts.take(i as int) =~= parts);
            push_str(out, "}");
            assert(out@ =~= old(out)@ + canon(v@));
        },
    }
}

/// The canonical text of `v`.
pub fn canonical_json(v: &Json) -> (r: String)
    ensures
        r@ == canon(v@),
{
    let mut s = String::new();
    write_canonical(&mut s, v);
    s
}

/// The models of the elements of an array.
pub open spec fn items_view(v: Seq<Json>) -> Seq<JsonView> {
    Seq::new(v.len(), |i: int| if 0 <= i < v.len() { v[i]@ } else { JsonView::Null })
}

/// An array of the values.
pub fn json_array(v: Vec<Json>) -> (r: Json)
    ensures
        r@ == JsonView::Array(items_view(v@)),
{
    let r = Json::Array(v);
    assert(r@ == JsonView::Array(items_view(v@))) by {
        match r@ {
            JsonView::Array(x) => {
                assert(x =~= items_view(v@));
            },
            _ => {},
        }
    }
    r
}

/// An object of the members, in the order given.
pub fn json_object(m: Vec<Member>) -> (r: Json)
    ensures
        r@ == JsonView::Object(members_view(m@)),
{
    let r = Json::Object(m);
    assert(r@ == JsonView::Object(members_view(m@))) by {
        match r@ {
            JsonView::Object(x) => {
                assert(x =~= members_view(m@));
            },
            _ => {},
        }
    }
    r
}

/// Appends a member with the key `key`.
pub fn push_member(m: &mut Vec<Member>, key: &str, value: Json)
    ensures
        final(m)@.len() == old(m)@.len() + 1,
        forall|i: int| 0 <= i < old(m)@.len() ==> #[trigger] final(m)@[i] == old(m)@[i],
        final(m)@.last().key@ == key@,
        final(m)@.last().value == value,
{
    m.push(Member { key: key.to_owned(), value });
}

pub proof fn lemma_items_push(v: Seq<Json>, x: Json)
    ensures
        items_view(v.push(x)) == items_view(v).push(x@),
{
    assert(items_view(v.push(x)) =~= items_view(v).push(x@));
}

/// The canonical text of an object lists each member once, in an order
/// along which the keys never decrease.
pub proof fn lemma_canon_object_sorted(m: Seq<(Seq<char>, JsonView)>)
    requires
        m.len() <= usize::MAX,
    ensures
        canon(JsonView::Object(m)) == "{"@ + join(canon_members(m), ", "@) + "}"@,
        key_order(member_keys(m)).len() == m.len(),
        forall|k: int|
            0 <= k < m.len() ==> 0 <= #[trigger] key_order(member_keys(m))[k] < m.len(),
        sorted_along(member_keys(m), key_order(member_keys(m))),
        distinct(key_order(member_keys(m))),
        forall|k: int|
            0 <= k < m.len() ==> #[trigger] canon_members(m)[k] == quote(
                m[key_order(member_keys(m))[k] as int].0,
            ) + ": "@ + canon(m[key_order(member_keys(m))[k] as int].1),
{
    lemma_sort_from_facts(member_keys(m), 0);
    lemma_sort_from_distinct(member_keys(m), 0);
    assert forall|k: int| 0 <= k < m.len() implies key_order(member_keys(m))[k] < m.len() by {
        assert(0 <= key_order(member_keys(m))[k] < member_keys(m).len());
    }
}

} // verus!
