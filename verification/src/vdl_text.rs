//! The canonical textual form of a pipeline description.
//!
//! A pipeline prints as its nodes joined by `|`; a node prints as its
//! name followed, when it has properties, by `[key="value", ...]` without
//! any whitespace, every value quoted.  The parser here reads exactly
//! that canonical form and certifies it: whenever it accepts a document,
//! printing the returned tree reproduces the document character for
//! character.  Re-parsing a printed tree therefore yields the same tree
//! again, because the printed document is the accepted document itself.
//! Children pipelines, bare values and insignificant whitespace are not
//! part of the canonical form.

use vstd::prelude::*;
use vstd::string::StringExecFns;
use vstd::string::StrSliceExecFns;
use crate::error::{corrupt_error, Error};
use crate::vdl::{is_space_char, spec_is_space, VDLNode, VDLPipeline};

verus! {

/// A character allowed in a node name or property key.
pub open spec fn spec_ident_char(c: char) -> bool {
    ('a' <= c <= 'z') || ('0' <= c <= '9') || c == '_'
}

/// A character allowed inside a quoted value: printable ASCII except the
/// quote and the backslash.
pub open spec fn spec_plain_char(c: char) -> bool {
    ' ' <= c <= '~' && c != '"' && c != '\\'
}

/// The canonical print of one `key="value"` pair.
pub open spec fn spec_print_kv(kv: (Seq<char>, Seq<Seq<char>>)) -> Seq<char> {
    kv.0 + "="@ + "\""@ + kv.1[0] + "\""@
}

/// The canonical print of a property list, comma-separated.
pub open spec fn spec_print_props(props: Seq<(Seq<char>, Seq<Seq<char>>)>) -> Seq<char>
    decreases props.len(),
{
    if props.len() == 0 {
        Seq::empty()
    } else if props.len() == 1 {
        spec_print_kv(props[0])
    } else {
        spec_print_props(props.drop_last()) + ","@ + spec_print_kv(props.last())
    }
}

/// The canonical print of one node.
pub open spec fn spec_print_node(n: &VDLNode) -> Seq<char> {
    if n.properties@.len() == 0 {
        n.name@
    } else {
        n.name@ + "["@ + spec_print_props(n.spec_props()) + "]"@
    }
}

/// The canonical print of a pipeline, nodes joined by `|`.
pub open spec fn spec_print_nodes(nodes: Seq<VDLNode>) -> Seq<char>
    decreases nodes.len(),
{
    if nodes.len() == 0 {
        Seq::empty()
    } else if nodes.len() == 1 {
        spec_print_node(&nodes[0])
    } else {
        spec_print_nodes(nodes.drop_last()) + "|"@ + spec_print_node(&nodes.last())
    }
}

/// The canonical print of a pipeline.
pub open spec fn spec_print_pipeline(p: &VDLPipeline) -> Seq<char> {
    spec_print_nodes(p.nodes@)
}

/// A node the canonical form can carry: a non-empty identifier name,
/// identifier keys with exactly one plain value each, and no children.
pub open spec fn spec_wf_node(n: &VDLNode) -> bool {
    &&& n.name@.len() > 0
    &&& crate::vdl::spec_keys_unique(n.spec_props())
    &&& forall|i: int| 0 <= i < n.name@.len() ==> spec_ident_char(#[trigger] n.name@[i])
    &&& n.children@.len() == 0
    &&& forall|k: int|
        0 <= k < n.spec_props().len() ==> {
            let kv = #[trigger] n.spec_props()[k];
            &&& kv.0.len() > 0
            &&& (forall|i: int| 0 <= i < kv.0.len() ==> spec_ident_char(#[trigger] kv.0[i]))
            &&& kv.1.len() == 1
            &&& (forall|i: int| 0 <= i < kv.1[0].len() ==> spec_plain_char(#[trigger] kv.1[0][i]))
        }
}

/// A pipeline the canonical form can carry: at least one node, all of
/// them well-formed.
pub open spec fn spec_wf_pipeline(p: &VDLPipeline) -> bool {
    &&& p.nodes@.len() > 0
    &&& forall|i: int| 0 <= i < p.nodes@.len() ==> spec_wf_node(&p.nodes@[i])
}

/// Appending one property extends the printed list by a comma and the
/// pair, or starts it.
proof fn lemma_print_props_snoc(props: Seq<(Seq<char>, Seq<Seq<char>>)>, kv: (Seq<char>, Seq<Seq<char>>))
    ensures
        spec_print_props(props.push(kv)) == if props.len() == 0 {
            spec_print_kv(kv)
        } else {
            spec_print_props(props) + ","@ + spec_print_kv(kv)
        },
{
    let ps = props.push(kv);
    assert(ps.drop_last() =~= props);
    assert(ps.last() == kv);
    if props.len() == 0 {
        assert(ps.len() == 1);
        assert(ps[0] == kv);
    }
}

/// Appending one node extends the printed pipeline by a bar and the node,
/// or starts it.
proof fn lemma_print_nodes_snoc(nodes: Seq<VDLNode>, n: VDLNode)
    ensures
        spec_print_nodes(nodes.push(n)) == if nodes.len() == 0 {
            spec_print_node(&n)
        } else {
            spec_print_nodes(nodes) + "|"@ + spec_print_node(&n)
        },
{
    let ns = nodes.push(n);
    assert(ns.drop_last() =~= nodes);
    assert(ns.last() == n);
    if nodes.len() == 0 {
        assert(ns.len() == 1);
        assert(ns[0] == n);
    }
}

/// The keys of a property list, in order.
pub open spec fn spec_prop_keys(props: Seq<(Seq<char>, Seq<Seq<char>>)>) -> Seq<Seq<char>> {
    Seq::new(props.len(), |i: int| props[i].0)
}

/// The end of the identifier run starting at `pos`.
pub open spec fn spec_ident_end(s: Seq<char>, pos: int) -> int
    decreases s.len() - pos,
{
    if 0 <= pos < s.len() && spec_ident_char(s[pos]) {
        spec_ident_end(s, pos + 1)
    } else {
        pos
    }
}

/// The end of the plain-character run starting at `pos`.
pub open spec fn spec_plain_end(s: Seq<char>, pos: int) -> int
    decreases s.len() - pos,
{
    if 0 <= pos < s.len() && spec_plain_char(s[pos]) {
        spec_plain_end(s, pos + 1)
    } else {
        pos
    }
}

/// Where the property list starting at `pos` ends (one past its `]`),
/// if the text from `pos` is one or more `key="value"` pairs separated
/// by commas and closed by a bracket, with no key repeated and none in
/// `seen`.
pub open spec fn spec_props_end(s: Seq<char>, pos: int, seen: Seq<Seq<char>>) -> Option<int>
    decreases s.len() - pos,
{
    let ke = spec_ident_end(s, pos);
    if pos < 0 || ke <= pos || ke + 1 >= s.len() {
        None
    } else if s[ke] != '=' || s[ke + 1] != '"' {
        None
    } else {
        let ve = spec_plain_end(s, ke + 2);
        if ve < ke + 2 || ve >= s.len() || s[ve] != '"' {
            None
        } else if seen.contains(s.subrange(pos, ke)) {
            None
        } else if ve + 1 < s.len() && s[ve + 1] == ',' {
            spec_props_end(s, ve + 2, seen.push(s.subrange(pos, ke)))
        } else if ve + 1 < s.len() && s[ve + 1] == ']' {
            Some(ve + 2)
        } else {
            None
        }
    }
}

/// Where the node starting at `pos` ends, if the text from `pos` is a
/// canonical node print: a non-empty identifier, optionally followed by
/// a bracketed property list.
pub open spec fn spec_node_end(s: Seq<char>, pos: int) -> Option<int> {
    let ne = spec_ident_end(s, pos);
    if pos < 0 || ne <= pos {
        None
    } else if ne >= s.len() || s[ne] != '[' {
        Some(ne)
    } else {
        spec_props_end(s, ne + 1, Seq::empty())
    }
}

/// The text from `pos` to the end is a chain of canonical nodes joined
/// by bars.
pub open spec fn spec_doc_from(s: Seq<char>, pos: int) -> bool
    decreases s.len() - pos,
{
    match spec_node_end(s, pos) {
        None => false,
        Some(e) => {
            if e <= pos {
                false
            } else if e == s.len() {
                true
            } else if e < s.len() && s[e] == '|' {
                spec_doc_from(s, e + 1)
            } else {
                false
            }
        },
    }
}

/// A canonical pipeline document: ASCII text matching the grammar.
pub open spec fn spec_canonical_doc(s: &str) -> bool {
    &&& vstd::string::is_ascii(s)
    &&& spec_doc_from(s@, 0)
}

/// Scans an identifier starting at `pos`: its end, which does not move
/// when no identifier character stands at `pos`.
#[verifier::loop_isolation(false)]
fn scan_ident(s: &str, pos: usize) -> (end: usize)
    requires
        s.is_ascii(),
        pos <= s@.len(),
    ensures
        pos <= end <= s@.len(),
        forall|i: int| pos <= i < end ==> spec_ident_char(#[trigger] s@[i]),
        end < s@.len() ==> !spec_ident_char(s@[end as int]),
        end == spec_ident_end(s@, pos as int),
{
    let n = s.unicode_len();
    let mut end = pos;
    while end < n && is_ident_char(s.get_char(end))
        invariant
            pos <= end <= n,
            forall|i: int| pos <= i < end ==> spec_ident_char(#[trigger] s@[i]),
            spec_ident_end(s@, end as int) == spec_ident_end(s@, pos as int),
        decreases n - end,
    {
        end = end + 1;
    }
    proof {
        assert(spec_ident_end(s@, end as int) == end);
    }
    end
}

fn is_ident_char(c: char) -> (r: bool)
    ensures
        r == spec_ident_char(c),
{
    (c >= 'a' && c <= 'z') || (c >= '0' && c <= '9') || c == '_'
}

fn is_plain_char(c: char) -> (r: bool)
    ensures
        r == spec_plain_char(c),
{
    c >= ' ' && c <= '~' && c != '"' && c != '\\'
}

/// Parses a canonical pipeline description.  On success the returned
/// tree is well-formed and prints back to exactly the input, so parsing
/// the print of the tree returns the tree again: the round trip of the
/// description language.  Success is owed on every canonical document:
/// parsing fails only on text outside the grammar.
#[verifier::loop_isolation(false)]
#[verifier::rlimit(100)]
pub fn parse_pipeline(s: &str) -> (r: Result<VDLPipeline, Error>)
    ensures
        match r {
            Ok(p) => spec_wf_pipeline(&p) && spec_print_pipeline(&p) == s@,
            Err(e) => e is Corrupt,
        },
        spec_canonical_doc(s) ==> r is Ok,
{
    proof {
        reveal_strlit("|");
    }
    if !s.is_ascii() {
        return Err(corrupt_error("pipeline description is not ascii"));
    }
    let n = s.unicode_len();
    let mut nodes: Vec<VDLNode> = Vec::new();
    let mut pos: usize = 0;
    loop
        invariant
            s.is_ascii(),
            n == s@.len(),
            pos <= n,
            nodes@.len() > 0 ==> spec_print_nodes(nodes@) + "|"@ == s@.subrange(0, pos as int),
            nodes@.len() == 0 ==> pos == 0,
            forall|i: int| 0 <= i < nodes@.len() ==> spec_wf_node(&nodes@[i]),
            spec_doc_from(s@, 0) ==> spec_doc_from(s@, pos as int),
        decreases n + 1 - pos,
    {
        let (node, end) = match parse_node(s, pos) {
            Ok(v) => v,
            Err(e) => {
                proof {
                    assert(!spec_doc_from(s@, pos as int));
                }
                return Err(e);
            },
        };
        let ghost nodes_before = nodes@;
        nodes.push(node);
        proof {
            lemma_print_nodes_snoc(nodes_before, nodes@.last());
            if nodes_before.len() == 0 {
                assert(spec_print_nodes(nodes@) =~= s@.subrange(0, end as int));
            } else {
                assert(spec_print_nodes(nodes@) =~= s@.subrange(0, end as int));
            }
        }
        pos = end;
        if pos == n {
            let p = VDLPipeline { nodes };
            proof {
                assert(spec_print_pipeline(&p) =~= s@);
            }
            return Ok(p);
        }
        if s.get_char(pos) != '|' {
            proof {
                assert(!spec_doc_from(s@, 0));
            }
            return Err(corrupt_error("expected a node separator"));
        }
        pos = pos + 1;
        proof {
            assert(spec_print_nodes(nodes@) + "|"@ =~= s@.subrange(0, pos as int));
        }
    }
}

/// Parses one node starting at `pos`: the node and the position just
/// past its print, which is exactly where the grammar puts the node's
/// end; text that starts no canonical node is refused.
#[verifier::loop_isolation(false)]
#[verifier::rlimit(100)]
fn parse_node(s: &str, pos: usize) -> (r: Result<(VDLNode, usize), Error>)
    requires
        s.is_ascii(),
        pos <= s@.len(),
    ensures
        match r {
            Ok((node, end)) => {
                &&& pos < end <= s@.len()
                &&& spec_wf_node(&node)
                &&& spec_print_node(&node) == s@.subrange(pos as int, end as int)
                &&& spec_node_end(s@, pos as int) == Some(end as int)
            },
            Err(e) => e is Corrupt && spec_node_end(s@, pos as int) is None,
        },
{
    proof {
        reveal_strlit("=");
        reveal_strlit("\"");
        reveal_strlit(",");
        reveal_strlit("[");
        reveal_strlit("]");
    }
    let n = s.unicode_len();
    let name_end = scan_ident(s, pos);
    if name_end == pos {
        return Err(corrupt_error("expected a node name"));
    }
    let name = s.substring_ascii(pos, name_end).to_owned();
    let mut node = VDLNode { name, properties: Vec::new(), children: Vec::new() };
    if name_end == n || s.get_char(name_end) != '[' {
        proof {
            assert(spec_print_node(&node) =~= s@.subrange(pos as int, name_end as int));
            assert(node.spec_props() =~= Seq::<(Seq<char>, Seq<Seq<char>>)>::empty());
        }
        return Ok((node, name_end));
    }
    let mut cur = name_end + 1;
    let ghost props_start = cur as int;
    proof {
        assert(node.spec_props() =~= Seq::<(Seq<char>, Seq<Seq<char>>)>::empty());
        assert(spec_prop_keys(node.spec_props()) =~= Seq::<Seq<char>>::empty());
    }
    loop
        invariant
            s.is_ascii(),
            n == s@.len(),
            name_end + 1 <= cur <= n,
            props_start == name_end + 1,
            node.name@ == s@.subrange(pos as int, name_end as int),
            node.name@.len() > 0,
            forall|i: int| 0 <= i < node.name@.len() ==> spec_ident_char(#[trigger] node.name@[i]),
            node.children@.len() == 0,
            crate::vdl::spec_keys_unique(node.spec_props()),
            forall|k: int|
                0 <= k < node.spec_props().len() ==> {
                    let kv = #[trigger] node.spec_props()[k];
                    &&& kv.0.len() > 0
                    &&& (forall|i: int| 0 <= i < kv.0.len() ==> spec_ident_char(#[trigger] kv.0[i]))
                    &&& kv.1.len() == 1
                    &&& (forall|i: int|
                        0 <= i < kv.1[0].len() ==> spec_plain_char(#[trigger] kv.1[0][i]))
                },
            node.spec_props().len() > 0 ==> spec_print_props(node.spec_props()) + ","@
                == s@.subrange(props_start, cur as int),
            node.spec_props().len() == 0 ==> cur == props_start,
            spec_node_end(s@, pos as int) == spec_props_end(
                s@,
                cur as int,
                spec_prop_keys(node.spec_props()),
            ),
        decreases n + 1 - cur,
    {
        let ghost kv_start = cur as int;
        let ghost seen = spec_prop_keys(node.spec_props());
        let key_end = scan_ident(s, cur);
        if key_end == cur {
            return Err(corrupt_error("expected a property key"));
        }
        if key_end == n || s.get_char(key_end) != '=' {
            return Err(corrupt_error("expected an equals sign"));
        }
        if key_end + 1 == n || s.get_char(key_end + 1) != '"' {
            return Err(corrupt_error("expected an opening quote"));
        }
        let val_start = key_end + 2;
        let mut val_end = val_start;
        while val_end < n && is_plain_char(s.get_char(val_end))
            invariant
                val_start <= val_end <= n,
                forall|i: int| val_start <= i < val_end ==> spec_plain_char(#[trigger] s@[i]),
                spec_plain_end(s@, val_end as int) == spec_plain_end(s@, val_start as int),
            decreases n - val_end,
        {
            val_end = val_end + 1;
        }
        proof {
            assert(spec_plain_end(s@, val_end as int) == val_end);
        }
        if val_end == n || s.get_char(val_end) != '"' {
            return Err(corrupt_error("expected a closing quote"));
        }
        let key = s.substring_ascii(cur, key_end).to_owned();
        match crate::vdl::find_key_index(&node.properties, &key) {
            Some(j) => {
                proof {
                    assert(seen[j as int] == key@);
                    assert(seen.contains(s@.subrange(kv_start, key_end as int)));
                }
                return Err(corrupt_error("duplicate property key"));
            },
            None => {
                proof {
                    assert forall|i: int| 0 <= i < seen.len() implies seen[i] != key@ by {
                        assert(node.spec_props()[i].0 == node.properties@[i].0@);
                    }
                    assert(!seen.contains(s@.subrange(kv_start, key_end as int)));
                }
            },
        }
        let value = s.substring_ascii(val_start, val_end).to_owned();
        let mut values: Vec<String> = Vec::new();
        values.push(value);
        let ghost props_before = node.spec_props();
        node.properties.push((key, values));
        proof {
            assert(node.spec_props() =~~= props_before.push(
                (
                    s@.subrange(kv_start, key_end as int),
                    seq![s@.subrange(val_start as int, val_end as int)],
                ),
            ));
            assert(spec_prop_keys(node.spec_props()) =~= seen.push(
                s@.subrange(kv_start, key_end as int),
            ));
            assert forall|i1: int, i2: int|
                0 <= i1 < i2 < node.spec_props().len() implies (#[trigger] node.spec_props()[i1]).0
                != (#[trigger] node.spec_props()[i2]).0 by {
                if i2 < props_before.len() {
                    assert(node.spec_props()[i1] == props_before[i1]);
                    assert(node.spec_props()[i2] == props_before[i2]);
                } else {
                    assert(node.spec_props()[i1] == props_before[i1]);
                    assert(seen[i1] == props_before[i1].0);
                }
            }
            lemma_print_props_snoc(props_before, node.spec_props().last());
            assert(spec_print_kv(node.spec_props().last()) =~= s@.subrange(
                kv_start,
                val_end + 1,
            ));
            if props_before.len() == 0 {
                assert(spec_print_props(node.spec_props()) =~= s@.subrange(
                    props_start,
                    val_end + 1,
                ));
            } else {
                assert(spec_print_props(node.spec_props()) =~= s@.subrange(
                    props_start,
                    val_end + 1,
                ));
            }
        }
        cur = val_end + 1;
        if cur < n && s.get_char(cur) == ',' {
            cur = cur + 1;
            proof {
                assert(spec_print_props(node.spec_props()) + ","@ =~= s@.subrange(
                    props_start,
                    cur as int,
                ));
                assert(spec_props_end(s@, kv_start, seen) == spec_props_end(
                    s@,
                    cur as int,
                    spec_prop_keys(node.spec_props()),
                ));
            }
        } else if cur < n && s.get_char(cur) == ']' {
            let end = cur + 1;
            proof {
                assert(node.spec_props().len() > 0);
                assert(spec_print_node(&node) =~= s@.subrange(pos as int, end as int));
                assert(spec_props_end(s@, kv_start, seen) == Some(end as int));
            }
            return Ok((node, end));
        } else {
            return Err(corrupt_error("expected a comma or a closing bracket"));
        }
    }
}


/// What the stripper is doing at a position: copying ordinary text,
/// copying a quoted value, or discarding a comment.
#[derive(Debug, Clone, Copy, PartialEq, Eq, Structural)]
pub enum StripMode {
    Text,
    Quoted,
    Comment,
}

/// The document with its insignificant characters removed: whitespace
/// and `#`-to-end-of-line comments outside quoted values vanish, quoted
/// values are kept whole.
pub open spec fn spec_strip_from(s: Seq<char>, mode: StripMode) -> Seq<char>
    decreases s.len(),
{
    if s.len() == 0 {
        Seq::empty()
    } else {
        let c = s.first();
        match mode {
            StripMode::Quoted => seq![c] + spec_strip_from(
                s.drop_first(),
                if c == '"' {
                    StripMode::Text
                } else {
                    StripMode::Quoted
                },
            ),
            StripMode::Comment => spec_strip_from(
                s.drop_first(),
                if c == '\n' {
                    StripMode::Text
                } else {
                    StripMode::Comment
                },
            ),
            StripMode::Text => {
                if spec_is_space(c) {
                    spec_strip_from(s.drop_first(), StripMode::Text)
                } else if c == '#' {
                    spec_strip_from(s.drop_first(), StripMode::Comment)
                } else if c == '"' {
                    seq![c] + spec_strip_from(s.drop_first(), StripMode::Quoted)
                } else {
                    seq![c] + spec_strip_from(s.drop_first(), StripMode::Text)
                }
            },
        }
    }
}

/// The stripped form of a whole document.
pub open spec fn spec_strip_doc(s: Seq<char>) -> Seq<char> {
    spec_strip_from(s, StripMode::Text)
}

/// Removes insignificant whitespace and comments, keeping quoted values
/// whole.
#[verifier::loop_isolation(false)]
fn strip_document(s: &str) -> (r: String)
    ensures
        r@ == spec_strip_doc(s@),
{
    let n = s.unicode_len();
    let mut out = String::new();
    let mut mode = StripMode::Text;
    let mut i: usize = 0;
    proof {
        assert(s@.skip(0) =~= s@);
        assert(out@ + spec_strip_from(s@, StripMode::Text) =~= spec_strip_doc(s@));
    }
    while i < n
        invariant
            n == s@.len(),
            i <= n,
            out@ + spec_strip_from(s@.skip(i as int), mode) == spec_strip_doc(s@),
        decreases n - i,
    {
        let c = s.get_char(i);
        proof {
            assert(s@.skip(i as int).first() == c);
            assert(s@.skip(i as int).drop_first() =~= s@.skip(i as int + 1));
            assert(s@.subrange(i as int, i as int + 1) =~= seq![c]);
        }
        match mode {
            StripMode::Quoted => {
                out.append(s.substring_char(i, i + 1));
                if c == '"' {
                    mode = StripMode::Text;
                }
                proof {
                    assert(out@ + spec_strip_from(s@.skip(i as int + 1), mode) =~= spec_strip_doc(
                        s@,
                    ));
                }
            },
            StripMode::Comment => {
                if c == '\n' {
                    mode = StripMode::Text;
                }
            },
            StripMode::Text => {
                if is_space_char(c) {
                } else if c == '#' {
                    mode = StripMode::Comment;
                } else {
                    out.append(s.substring_char(i, i + 1));
                    if c == '"' {
                        mode = StripMode::Quoted;
                    }
                    proof {
                        assert(out@ + spec_strip_from(s@.skip(i as int + 1), mode)
                            =~= spec_strip_doc(s@));
                    }
                }
            },
        }
        i = i + 1;
    }
    proof {
        assert(s@.skip(n as int) =~= Seq::<char>::empty());
        assert(out@ =~= spec_strip_doc(s@));
    }
    out
}

/// Parses a pipeline description with its surface freedoms: whitespace
/// and `#` comments outside quoted values are insignificant and are
/// stripped first; the rest must be the canonical form.  On success the
/// returned tree prints back to exactly the stripped document, and
/// success is owed whenever the stripped document is canonical.
pub fn parse_document(s: &str) -> (r: Result<VDLPipeline, Error>)
    ensures
        match r {
            Ok(p) => spec_wf_pipeline(&p) && spec_print_pipeline(&p) == spec_strip_doc(s@),
            Err(e) => e is Corrupt,
        },
        vstd::utf8::is_ascii_chars(spec_strip_doc(s@)) && spec_doc_from(spec_strip_doc(s@), 0)
            ==> r is Ok,
{
    let stripped = strip_document(s);
    parse_pipeline(stripped.as_str())
}

/// Prints a pipeline in canonical form.
#[verifier::loop_isolation(false)]
pub fn print_pipeline(p: &VDLPipeline) -> (r: String)
    requires
        spec_wf_pipeline(p),
    ensures
        r@ == spec_print_pipeline(p),
{
    proof {
        reveal_strlit("|");
    }
    let mut out = String::new();
    let mut i: usize = 0;
    proof {
        assert(p.nodes@.take(0) =~= Seq::<VDLNode>::empty());
    }
    while i < p.nodes.len()
        invariant
            i <= p.nodes@.len(),
            out@ == spec_print_nodes(p.nodes@.take(i as int)),
        decreases p.nodes@.len() - i,
    {
        if i > 0 {
            out.append("|");
        }
        print_node_into(&mut out, &p.nodes[i]);
        proof {
            lemma_print_nodes_snoc(p.nodes@.take(i as int), p.nodes@[i as int]);
            assert(p.nodes@.take(i as int).push(p.nodes@[i as int]) =~= p.nodes@.take(i + 1));
        }
        i = i + 1;
    }
    proof {
        assert(p.nodes@.take(p.nodes@.len() as int) =~= p.nodes@);
    }
    out
}

/// Appends a node's canonical print.
#[verifier::loop_isolation(false)]
fn print_node_into(out: &mut String, n: &VDLNode)
    requires
        spec_wf_node(n),
    ensures
        final(out)@ == old(out)@ + spec_print_node(n),
{
    proof {
        reveal_strlit("=");
        reveal_strlit("\"");
        reveal_strlit(",");
        reveal_strlit("[");
        reveal_strlit("]");
    }
    out.append(n.name.as_str());
    if n.properties.len() == 0 {
        return ;
    }
    out.append("[");
    let mut k: usize = 0;
    let ghost base = old(out)@ + n.name@ + "["@;
    proof {
        assert(out@ =~= base + spec_print_props(n.spec_props().take(0)));
    }
    while k < n.properties.len()
        invariant
            k <= n.properties@.len(),
            out@ == base + spec_print_props(n.spec_props().take(k as int)),
        decreases n.properties@.len() - k,
    {
        if k > 0 {
            out.append(",");
        }
        proof {
            assert(n.spec_props()[k as int].1.len() == 1);
            assert(n.properties@[k as int].1.deep_view().len() == 1);
        }
        out.append(n.properties[k].0.as_str());
        out.append("=");
        out.append("\"");
        out.append(n.properties[k].1[0].as_str());
        out.append("\"");
        proof {
            let kv = n.spec_props()[k as int];
            lemma_print_props_snoc(n.spec_props().take(k as int), kv);
            assert(n.spec_props().take(k as int).push(kv) =~= n.spec_props().take(k + 1));
            assert(out@ =~= base + spec_print_props(n.spec_props().take(k + 1)));
        }
        k = k + 1;
    }
    out.append("]");
    proof {
        assert(n.spec_props().take(n.spec_props().len() as int) =~= n.spec_props());
        assert(final(out)@ =~= old(out)@ + spec_print_node(n));
    }
}

} // verus!
