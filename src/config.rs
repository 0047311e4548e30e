use crate::specs::{Mnemonic, Operand, operand_named};
use vstd::prelude::*;
use vstd::string::StringExecFns;

verus! {

/// The key of an edge of the instruction automaton.
#[derive(Debug, PartialEq, Eq, Hash)]
pub enum NodeType {
    Mnemonic(Mnemonic),
    Operand(Operand),
    /// The terminal marker: the edge under it leads to the opcode.
    MachineCode,
}

/// An edge key seen through the characters of the mnemonic.
pub enum NodeKey {
    Mnemonic(Seq<char>),
    Operand(Operand),
    MachineCode,
}

impl View for NodeType {
    type V = NodeKey;

    open spec fn view(&self) -> NodeKey {
        match self {
            NodeType::Mnemonic(m) => NodeKey::Mnemonic(m@),
            NodeType::Operand(o) => NodeKey::Operand(*o),
            NodeType::MachineCode => NodeKey::MachineCode,
        }
    }
}

impl Clone for NodeType {
    fn clone(&self) -> (r: Self)
        ensures
            r == *self,
    {
        match self {
            NodeType::Mnemonic(m) => NodeType::Mnemonic(m.clone()),
            NodeType::Operand(o) => NodeType::Operand(*o),
            NodeType::MachineCode => NodeType::MachineCode,
        }
    }
}

impl NodeType {
    pub fn same_key(&self, other: &NodeType) -> (r: bool)
        ensures
            r == (self@ == other@),
    {
        match (self, other) {
            (NodeType::Mnemonic(a), NodeType::Mnemonic(b)) => a.name == b.name,
            (NodeType::Operand(a), NodeType::Operand(b)) => *a == *b,
            (NodeType::MachineCode, NodeType::MachineCode) => true,
            _ => false,
        }
    }
}

/// A node of the automaton: an opcode bit-string, or edges to further nodes.
#[derive(Debug, PartialEq, Eq)]
pub enum ConfigNode {
    Leaf(String),
    Branch(Vec<(NodeType, ConfigNode)>),
}

/// The node under the first edge whose key is `k`.
pub open spec fn find_edge(edges: Seq<(NodeType, ConfigNode)>, k: NodeKey) -> Option<ConfigNode>
    decreases edges.len(),
{
    if edges.len() == 0 {
        None
    } else if edges[0].0@ == k {
        Some(edges[0].1)
    } else {
        find_edge(edges.drop_first(), k)
    }
}

/// The node reached from `edges` by following the keys of `path`.
pub open spec fn node_at(edges: Seq<(NodeType, ConfigNode)>, path: Seq<NodeKey>) -> Option<ConfigNode>
    decreases path.len(),
{
    if path.len() == 0 {
        None
    } else {
        match find_edge(edges, path[0]) {
            None => None,
            Some(n) => if path.len() == 1 {
                Some(n)
            } else {
                match n {
                    ConfigNode::Branch(children) => node_at(children@, path.drop_first()),
                    ConfigNode::Leaf(_) => None,
                }
            },
        }
    }
}

/// Leaves stand exactly under the terminal marker.
pub open spec fn wf_edges(edges: Seq<(NodeType, ConfigNode)>) -> bool {
    forall|p: Seq<NodeKey>| #[trigger]
        node_at(edges, p) is Some ==> ((node_at(edges, p)->0 is Leaf) <==> (p.last() is MachineCode))
}

/// The opcode of the instruction whose key path is `key` (mnemonic, then operand kinds).
pub open spec fn opcode_at(edges: Seq<(NodeType, ConfigNode)>, key: Seq<NodeKey>) -> Option<Seq<char>> {
    match node_at(edges, key.push(NodeKey::MachineCode)) {
        Some(ConfigNode::Leaf(s)) => Some(s@),
        _ => None,
    }
}

pub open spec fn is_branch(n: Option<ConfigNode>) -> bool {
    n matches Some(ConfigNode::Branch(_))
}

pub open spec fn is_leaf(n: Option<ConfigNode>) -> bool {
    n matches Some(ConfigNode::Leaf(_))
}

pub open spec fn has_no_terminal(key: Seq<NodeKey>) -> bool {
    forall|i: int| 0 <= i < key.len() ==> !(#[trigger] key[i] is MachineCode)
}

pub open spec fn is_prefix_of(r: Seq<NodeKey>, s: Seq<NodeKey>) -> bool {
    1 <= r.len() <= s.len() && r == s.subrange(0, r.len() as int)
}

pub open spec fn keys_of(path: Seq<NodeType>) -> Seq<NodeKey> {
    path.map_values(|t: NodeType| t@)
}

proof fn lemma_find_push(es: Seq<(NodeType, ConfigNode)>, e: (NodeType, ConfigNode), k: NodeKey)
    ensures
        find_edge(es.push(e), k) == (if find_edge(es, k) is Some {
            find_edge(es, k)
        } else if e.0@ == k {
            Some(e.1)
        } else {
            None
        }),
    decreases es.len(),
{
    reveal_with_fuel(find_edge, 2);
    if es.len() > 0 {
        assert(es.push(e)[0] == es[0]);
        assert(es.push(e).drop_first() =~= es.drop_first().push(e));
        lemma_find_push(es.drop_first(), e, k);
    } else {
        assert(es.push(e)[0] == e);
        assert(es.push(e).drop_first() =~= Seq::<(NodeType, ConfigNode)>::empty());
    }
}

proof fn lemma_find_update(
    es: Seq<(NodeType, ConfigNode)>,
    i: int,
    e: (NodeType, ConfigNode),
    k: NodeKey,
)
    requires
        0 <= i < es.len(),
        es[i].0@ == e.0@,
        forall|j: int| 0 <= j < i ==> es[j].0@ != e.0@,
    ensures
        find_edge(es.update(i, e), k) == (if k == e.0@ {
            Some(e.1)
        } else {
            find_edge(es, k)
        }),
    decreases i,
{
    if i == 0 {
        assert(es.update(i, e)[0] == e);
        assert(es.update(i, e).drop_first() =~= es.drop_first());
    } else {
        assert(es.update(i, e)[0] == es[0]);
        assert(es[0].0@ != e.0@);
        assert(es.update(i, e).drop_first() =~= es.drop_first().update(i - 1, e));
        assert forall|j: int| 0 <= j < i - 1 implies es.drop_first()[j].0@ != e.0@ by {
            assert(es[j + 1].0@ != e.0@);
        }
        lemma_find_update(es.drop_first(), i - 1, e, k);
    }
}

/// Following one more key from a node reached by a path.
pub proof fn lemma_node_at_push(edges: Seq<(NodeType, ConfigNode)>, p: Seq<NodeKey>, x: NodeKey)
    requires
        p.len() >= 1,
    ensures
        node_at(edges, p.push(x)) == (match node_at(edges, p) {
            Some(ConfigNode::Branch(children)) => find_edge(children@, x),
            _ => None,
        }),
    decreases p.len(),
{
    reveal_with_fuel(node_at, 2);
    let q = p.push(x);
    assert(q[0] == p[0]);
    if p.len() == 1 {
        assert(q.drop_first() =~= seq![x]);
    } else {
        assert(q.drop_first() =~= p.drop_first().push(x));
        match find_edge(edges, p[0]) {
            Some(ConfigNode::Branch(children)) => {
                lemma_node_at_push(children@, p.drop_first(), x);
            },
            _ => {},
        }
    }
}

proof fn lemma_prefix_cons(r: Seq<NodeKey>, s: Seq<NodeKey>)
    requires
        r.len() >= 2,
        s.len() >= 1,
        r[0] == s[0],
    ensures
        is_prefix_of(r, s) <==> is_prefix_of(r.drop_first(), s.drop_first()),
{
    if is_prefix_of(r.drop_first(), s.drop_first()) {
        assert forall|k: int| 0 <= k < r.len() implies r[k] == s.subrange(0, r.len() as int)[k] by {
            if k > 0 {
                assert(r[k] == r.drop_first()[k - 1]);
            }
        }
        assert(r =~= s.subrange(0, r.len() as int));
    }
    if is_prefix_of(r, s) {
        assert(r.drop_first() =~= s.drop_first().subrange(0, r.len() - 1));
    }
}

proof fn lemma_node_at_empty(p: Seq<NodeKey>)
    ensures
        node_at(Seq::<(NodeType, ConfigNode)>::empty(), p) is None,
{
}

/// Finds the index of the first edge with the given key.
pub(crate) fn find_index(edges: &Vec<(NodeType, ConfigNode)>, k: &NodeType) -> (r: Option<usize>)
    ensures
        match r {
            Some(i) => {
                &&& i < edges@.len()
                &&& edges@[i as int].0@ == k@
                &&& forall|j: int| 0 <= j < i ==> edges@[j].0@ != k@
                &&& find_edge(edges@, k@) == Some(edges@[i as int].1)
            },
            None => find_edge(edges@, k@) is None,
        },
{
    let mut i: usize = 0;
    proof {
        assert(edges@.subrange(0, edges@.len() as int) =~= edges@);
    }
    while i < edges.len()
        invariant
            i <= edges@.len(),
            forall|j: int| 0 <= j < i ==> edges@[j].0@ != k@,
            find_edge(edges@, k@) == find_edge(edges@.subrange(i as int, edges@.len() as int), k@),
        decreases edges@.len() - i,
    {
        proof {
            let rest = edges@.subrange(i as int, edges@.len() as int);
            assert(rest.drop_first() =~= edges@.subrange(i + 1, edges@.len() as int));
            assert(rest[0] == edges@[i as int]);
        }
        if edges[i].0.same_key(k) {
            return Some(i);
        }
        i = i + 1;
    }
    proof {
        assert(edges@.subrange(i as int, edges@.len() as int).len() == 0);
    }
    None
}

/// Adds the path `path[i..]` with a leaf holding `opcode` at its end.
fn insert_path(
    edges: &mut Vec<(NodeType, ConfigNode)>,
    path: &Vec<NodeType>,
    i: usize,
    opcode: String,
)
    requires
        i < path@.len(),
        node_at(old(edges)@, keys_of(path@.subrange(i as int, path@.len() as int))) is None,
        forall|j: int|
            1 <= j < path@.len() - i ==> !is_leaf(#[trigger] node_at(
                old(edges)@,
                keys_of(path@.subrange(i as int, path@.len() as int)).subrange(0, j),
            )),
    ensures
        ({
            let s = keys_of(path@.subrange(i as int, path@.len() as int));
            &&& forall|r: Seq<NodeKey>|
                !is_prefix_of(r, s) ==> #[trigger] node_at(final(edges)@, r) == node_at(
                    old(edges)@,
                    r,
                )
            &&& forall|j: int|
                1 <= j < s.len() ==> is_branch(#[trigger] node_at(final(edges)@, s.subrange(0, j)))
            &&& node_at(final(edges)@, s) == Some(ConfigNode::Leaf(opcode))
        }),
    decreases path@.len() - i,
{
    let ghost s = keys_of(path@.subrange(i as int, path@.len() as int));
    let ghost old_edges = edges@;
    let ghost s1 = keys_of(path@.subrange(i + 1, path@.len() as int));
    proof {
        assert(s.len() == path@.len() - i);
        assert(s[0] == path@[i as int]@);
        if i + 1 < path@.len() {
            assert(s1 =~= s.drop_first());
        }
    }
    let last = i == path.len() - 1;
    match find_index(edges, &path[i]) {
        None => {
            let key = path[i].clone();
            if last {
                let ghost e = (key, ConfigNode::Leaf(opcode));
                edges.push((key, ConfigNode::Leaf(opcode)));
                proof {
                    assert forall|r: Seq<NodeKey>| !is_prefix_of(r, s) implies #[trigger] node_at(
                        edges@,
                        r,
                    ) == node_at(old_edges, r) by {
                        if r.len() > 0 {
                            lemma_find_push(old_edges, e, r[0]);
                            if r[0] == s[0] && r.len() == 1 {
                                assert(r =~= s.subrange(0, 1));
                                assert(s =~= s.subrange(0, 1));
                            }
                        }
                    }
                    lemma_find_push(old_edges, e, s[0]);
                }
            } else {
                let mut children: Vec<(NodeType, ConfigNode)> = Vec::new();
                proof {
                    assert forall|j: int| 1 <= j < path@.len() - (i + 1) implies !is_leaf(
                    #[trigger] node_at(
                        children@,
                        keys_of(path@.subrange(i + 1, path@.len() as int)).subrange(0, j),
                    )) by {
                        lemma_node_at_empty(
                            keys_of(path@.subrange(i + 1, path@.len() as int)).subrange(0, j),
                        );
                    }
                    lemma_node_at_empty(s1);
                }
                insert_path(&mut children, path, i + 1, opcode);
                let ghost e = (key, ConfigNode::Branch(children));
                edges.push((key, ConfigNode::Branch(children)));
                proof {
                    assert(s.drop_first() =~= s1);
                    lemma_find_push(old_edges, e, s[0]);
                    assert forall|r: Seq<NodeKey>| !is_prefix_of(r, s) implies #[trigger] node_at(
                        edges@,
                        r,
                    ) == node_at(old_edges, r) by {
                        if r.len() > 0 {
                            lemma_find_push(old_edges, e, r[0]);
                            if r[0] == s[0] {
                                if r.len() == 1 {
                                    assert(r =~= s.subrange(0, 1));
                                } else {
                                    let r1 = r.drop_first();
                                    lemma_prefix_cons(r, s);
                                    lemma_node_at_empty(r1);
                                    assert(!is_prefix_of(r1, s1));
                                    assert(node_at(children@, r1) is None);
                                    assert(node_at(edges@, r) == node_at(children@, r1));
                                }
                            }
                        }
                    }
                    assert forall|j: int| 1 <= j < s.len() implies is_branch(#[trigger] node_at(
                        edges@,
                        s.subrange(0, j),
                    )) by {
                        let sj = s.subrange(0, j);
                        assert(sj[0] == s[0]);
                        assert(sj.len() == j);
                        if j > 1 {
                            assert(sj.drop_first() =~= s1.subrange(0, j - 1));
                            assert(is_branch(node_at(children@, s1.subrange(0, j - 1))));
                            assert(node_at(edges@, sj) == node_at(children@, sj.drop_first()));
                        }
                    }
                    assert(s.drop_first() =~= s1);
                }
            }
        },
        Some(idx) => {
            proof {
                if last {
                    assert(s.len() == 1);
                    assert(false);
                }
                assert(s.subrange(0, 1).len() == 1);
                assert(s.subrange(0, 1)[0] == s[0]);
                assert(!is_leaf(node_at(old_edges, s.subrange(0, 1))));
            }
            let (key, node) = edges.remove(idx);
            match node {
                ConfigNode::Branch(mut children) => {
                    let ghost old_children = children@;
                    proof {
                        assert(old_edges[idx as int] == (key, ConfigNode::Branch(children)));
                        assert(s1 =~= s.drop_first());
                        assert forall|j: int| 1 <= j < path@.len() - (i + 1) implies !is_leaf(
                        #[trigger] node_at(
                            children@,
                            keys_of(path@.subrange(i + 1, path@.len() as int)).subrange(0, j),
                        )) by {
                            let sj = s.subrange(0, j + 1);
                            assert(sj[0] == s[0]);
                            assert(sj.drop_first() =~= s1.subrange(0, j));
                            assert(!is_leaf(node_at(old_edges, s.subrange(0, j + 1))));
                        }
                    }
                    insert_path(&mut children, path, i + 1, opcode);
                    let ghost e = (key, ConfigNode::Branch(children));
                    edges.insert(idx, (key, ConfigNode::Branch(children)));
                    proof {
                        assert(edges@ =~= old_edges.update(idx as int, e));
                        lemma_find_update(old_edges, idx as int, e, s[0]);
                        assert forall|r: Seq<NodeKey>| !is_prefix_of(r, s) implies #[trigger] node_at(
                            edges@,
                            r,
                        ) == node_at(old_edges, r) by {
                            if r.len() > 0 {
                                lemma_find_update(old_edges, idx as int, e, r[0]);
                                if r[0] == s[0] {
                                    if r.len() == 1 {
                                        assert(r =~= s.subrange(0, 1));
                                    } else {
                                        let r1 = r.drop_first();
                                        lemma_prefix_cons(r, s);
                                        assert(!is_prefix_of(r1, s1));
                                        assert(node_at(children@, r1) == node_at(old_children, r1));
                                        assert(node_at(edges@, r) == node_at(children@, r1));
                                        assert(node_at(old_edges, r) == node_at(old_children, r1));
                                    }
                                }
                            }
                        }
                        assert forall|j: int| 1 <= j < s.len() implies is_branch(#[trigger] node_at(
                            edges@,
                            s.subrange(0, j),
                        )) by {
                            let sj = s.subrange(0, j);
                            assert(sj[0] == s[0]);
                            assert(sj.len() == j);
                            if j > 1 {
                                assert(sj.drop_first() =~= s1.subrange(0, j - 1));
                                assert(is_branch(node_at(children@, s1.subrange(0, j - 1))));
                                assert(node_at(edges@, sj) == node_at(children@, sj.drop_first()));
                            }
                        }
                    }
                },
                ConfigNode::Leaf(_) => {
                    proof {
                        assert(false);
                    }
                },
            }
        },
    }
}

/// One record of an instruction-set description: a mnemonic, an optional
/// flag-dependent suffix, the names of its operand kinds and its opcode.
#[derive(Debug)]
pub struct InstructionDesc {
    pub mnemonic: String,
    pub arguments: Vec<String>,
    pub opcode: String,
    pub depend_on_flag: String,
}

/// Why an automaton could not be built from a description.
#[derive(Debug, PartialEq, Eq)]
pub enum ConfigError {
    /// An operand-kind name outside the vocabulary.
    UnknownOperand(String),
    /// An opcode that is not one to eight characters '0' and '1'.
    InvalidOpcode(String),
    /// A second record with the same mnemonic and operand kinds; holds its mnemonic.
    DuplicateInstruction(String),
}

/// The instruction-set automaton: a trie from mnemonic and operand kinds to opcodes.
#[derive(Debug)]
pub struct Config {
    pub automaton: Vec<(NodeType, ConfigNode)>,
}

pub open spec fn is_bit_string(s: Seq<char>) -> bool {
    &&& 1 <= s.len() <= 8
    &&& forall|i: int| 0 <= i < s.len() ==> (s[i] == '0' || s[i] == '1')
}

/// The value of a bit-string, most significant bit first; characters other than '1' count as 0.
pub open spec fn bits_value(s: Seq<char>) -> nat
    decreases s.len(),
{
    if s.len() == 0 {
        0
    } else {
        2 * bits_value(s.drop_last()) + if s.last() == '1' {
            1nat
        } else {
            0nat
        }
    }
}

/// The operand keys that a list of operand-kind names denotes, or the first unknown name.
pub open spec fn operand_keys(args: Seq<String>) -> Result<Seq<NodeKey>, ConfigError>
    decreases args.len(),
{
    if args.len() == 0 {
        Ok(Seq::empty())
    } else {
        match operand_keys(args.drop_last()) {
            Err(e) => Err(e),
            Ok(ks) => match operand_named(args.last()@) {
                Some(k) => Ok(ks.push(NodeKey::Operand(k))),
                None => Err(ConfigError::UnknownOperand(args.last())),
            },
        }
    }
}

/// The key path of one record: its full mnemonic followed by its operand kinds.
pub open spec fn desc_key(d: InstructionDesc) -> Result<Seq<NodeKey>, ConfigError> {
    match operand_keys(d.arguments@) {
        Err(e) => Err(e),
        Ok(ks) => if is_bit_string(d.opcode@) {
            Ok(seq![NodeKey::Mnemonic(d.mnemonic@ + d.depend_on_flag@)] + ks)
        } else {
            Err(ConfigError::InvalidOpcode(d.opcode))
        },
    }
}

/// The instruction set that a list of records describes, as a map from key
/// paths to opcodes, or the error of the first bad record.
pub open spec fn build_result(descs: Seq<InstructionDesc>) -> Result<
    Map<Seq<NodeKey>, Seq<char>>,
    ConfigError,
>
    decreases descs.len(),
{
    if descs.len() == 0 {
        Ok(Map::empty())
    } else {
        match build_result(descs.drop_last()) {
            Err(e) => Err(e),
            Ok(m) => match desc_key(descs.last()) {
                Err(e) => Err(e),
                Ok(k) => if m.contains_key(k) {
                    Err(ConfigError::DuplicateInstruction(descs.last().mnemonic))
                } else {
                    Ok(m.insert(k, descs.last().opcode@))
                },
            },
        }
    }
}

pub open spec fn map_get(m: Map<Seq<NodeKey>, Seq<char>>, k: Seq<NodeKey>) -> Option<Seq<char>> {
    if m.contains_key(k) {
        Some(m[k])
    } else {
        None
    }
}

impl Config {
    /// Leaves stand exactly under the terminal marker, and hold bit-strings.
    pub open spec fn wf(&self) -> bool {
        &&& wf_edges(self.automaton@)
        &&& forall|key: Seq<NodeKey>| #[trigger]
            self.opcode_of(key) matches Some(o) ==> is_bit_string(o)
    }

    /// The opcode registered for a mnemonic followed by operand kinds.
    pub open spec fn opcode_of(&self, key: Seq<NodeKey>) -> Option<Seq<char>> {
        opcode_at(self.automaton@, key)
    }

    /// The automaton holds exactly the instructions of `m`.
    pub open spec fn models(&self, m: Map<Seq<NodeKey>, Seq<char>>) -> bool {
        forall|key: Seq<NodeKey>| #[trigger] self.opcode_of(key) == map_get(m, key)
    }
}

proof fn lemma_operand_keys(args: Seq<String>)
    requires
        operand_keys(args) is Ok,
    ensures
        has_no_terminal(operand_keys(args)->Ok_0),
        operand_keys(args)->Ok_0.len() == args.len(),
    decreases args.len(),
{
    if args.len() > 0 {
        lemma_operand_keys(args.drop_last());
    }
}

proof fn lemma_build_values(descs: Seq<InstructionDesc>)
    requires
        build_result(descs) is Ok,
    ensures
        forall|k: Seq<NodeKey>| #[trigger]
            build_result(descs)->Ok_0.contains_key(k) ==> is_bit_string(build_result(descs)->Ok_0[k]),
    decreases descs.len(),
{
    if descs.len() > 0 {
        lemma_build_values(descs.drop_last());
    }
}

proof fn lemma_build_err(descs: Seq<InstructionDesc>, i: int)
    requires
        0 <= i <= descs.len(),
        build_result(descs.subrange(0, i)) is Err,
    ensures
        build_result(descs) == build_result(descs.subrange(0, i)),
    decreases descs.len() - i,
{
    if i < descs.len() {
        assert(descs.subrange(0, i + 1).drop_last() =~= descs.subrange(0, i));
        lemma_build_err(descs, i + 1);
    } else {
        assert(descs.subrange(0, i) =~= descs);
    }
}

proof fn lemma_bits_bound(s: Seq<char>)
    requires
        s.len() <= 8,
    ensures
        bits_value(s) < 256,
        s.len() <= 7 ==> bits_value(s) < 128,
        s.len() <= 6 ==> bits_value(s) < 64,
        s.len() <= 5 ==> bits_value(s) < 32,
        s.len() <= 4 ==> bits_value(s) < 16,
        s.len() <= 3 ==> bits_value(s) < 8,
        s.len() <= 2 ==> bits_value(s) < 4,
        s.len() <= 1 ==> bits_value(s) < 2,
        s.len() == 0 ==> bits_value(s) == 0,
    decreases s.len(),
{
    if s.len() > 0 {
        lemma_bits_bound(s.drop_last());
    }
}

/// The byte whose bits a bit-string gives, most significant first.
pub fn binary_str_to_byte(binary_str: &str) -> (r: u8)
    requires
        binary_str@.len() <= 8,
    ensures
        r == bits_value(binary_str@),
{
    let n = binary_str.unicode_len();
    let mut byte: u8 = 0;
    let mut i: usize = 0;
    while i < n
        invariant
            n == binary_str@.len(),
            n <= 8,
            i <= n,
            byte == bits_value(binary_str@.subrange(0, i as int)),
        decreases n - i,
    {
        let ghost pre = binary_str@.subrange(0, i as int);
        let ghost next = binary_str@.subrange(0, i + 1);
        proof {
            assert(next.drop_last() =~= pre);
            lemma_bits_bound(pre);
            lemma_bits_bound(next);
        }
        let bit: u8 = if binary_str.get_char(i) == '1' {
            1
        } else {
            0
        };
        byte = byte * 2 + bit;
        i = i + 1;
    }
    proof {
        assert(binary_str@.subrange(0, n as int) =~= binary_str@);
    }
    byte
}

fn is_bit_str(s: &str) -> (r: bool)
    ensures
        r == is_bit_string(s@),
{
    let n = s.unicode_len();
    if n < 1 || n > 8 {
        return false;
    }
    let mut i: usize = 0;
    while i < n
        invariant
            n == s@.len(),
            i <= n,
            forall|j: int| 0 <= j < i ==> (s@[j] == '0' || s@[j] == '1'),
        decreases n - i,
    {
        let c = s.get_char(i);
        if c != '0' && c != '1' {
            return false;
        }
        i = i + 1;
    }
    true
}

/// The key path of one record, ended by the terminal marker.
fn desc_path(d: &InstructionDesc) -> (r: Result<Vec<NodeType>, ConfigError>)
    ensures
        match desc_key(*d) {
            Ok(k) => r matches Ok(p) && keys_of(p@) == k.push(NodeKey::MachineCode),
            Err(e) => r == Err::<Vec<NodeType>, ConfigError>(e),
        },
{
    let mut name = d.mnemonic.clone();
    name.append(d.depend_on_flag.as_str());
    let mut path: Vec<NodeType> = Vec::new();
    path.push(NodeType::Mnemonic(Mnemonic::new(name)));
    let n = d.arguments.len();
    let mut i: usize = 0;
    proof {
        assert(d.arguments@.subrange(0, 0) =~= Seq::<String>::empty());
        assert(keys_of(path@) =~= seq![NodeKey::Mnemonic(d.mnemonic@ + d.depend_on_flag@)]);
    }
    while i < n
        invariant
            n == d.arguments@.len(),
            i <= n,
            operand_keys(d.arguments@.subrange(0, i as int)) matches Ok(ks) && keys_of(path@)
                == seq![NodeKey::Mnemonic(d.mnemonic@ + d.depend_on_flag@)] + ks,
        decreases n - i,
    {
        let ghost pre = d.arguments@.subrange(0, i as int);
        proof {
            assert(d.arguments@.subrange(0, i + 1).drop_last() =~= pre);
        }
        match Operand::from_str(d.arguments[i].as_str()) {
            Ok(k) => {
                let ghost ks = operand_keys(pre)->Ok_0;
                let ghost before = path@;
                path.push(NodeType::Operand(k));
                proof {
                    assert(keys_of(path@) =~= keys_of(before).push(NodeKey::Operand(k)));
                    assert(keys_of(path@) =~= seq![
                        NodeKey::Mnemonic(d.mnemonic@ + d.depend_on_flag@),
                    ] + ks.push(NodeKey::Operand(k)));
                }
            },
            Err(_) => {
                proof {
                    lemma_operand_keys_err(d.arguments@, i + 1);
                }
                return Err(ConfigError::UnknownOperand(d.arguments[i].clone()));
            },
        }
        i = i + 1;
    }
    proof {
        assert(d.arguments@.subrange(0, n as int) =~= d.arguments@);
    }
    if !is_bit_str(d.opcode.as_str()) {
        return Err(ConfigError::InvalidOpcode(d.opcode.clone()));
    }
    let ghost before = path@;
    path.push(NodeType::MachineCode);
    proof {
        assert(keys_of(path@) =~= keys_of(before).push(NodeKey::MachineCode));
    }
    Ok(path)
}

proof fn lemma_operand_keys_err(args: Seq<String>, i: int)
    requires
        0 <= i <= args.len(),
        operand_keys(args.subrange(0, i)) is Err,
    ensures
        operand_keys(args) == operand_keys(args.subrange(0, i)),
    decreases args.len() - i,
{
    if i < args.len() {
        assert(args.subrange(0, i + 1).drop_last() =~= args.subrange(0, i));
        lemma_operand_keys_err(args, i + 1);
    } else {
        assert(args.subrange(0, i) =~= args);
    }
}

/// Tells whether the path `path[i..]` leads to a node.
fn contains_path(edges: &Vec<(NodeType, ConfigNode)>, path: &Vec<NodeType>, i: usize) -> (r: bool)
    requires
        i < path@.len(),
    ensures
        r == node_at(edges@, keys_of(path@.subrange(i as int, path@.len() as int))) is Some,
    decreases path@.len() - i,
{
    let ghost s = keys_of(path@.subrange(i as int, path@.len() as int));
    proof {
        assert(s[0] == path@[i as int]@);
        if i + 1 < path@.len() {
            assert(keys_of(path@.subrange(i + 1, path@.len() as int)) =~= s.drop_first());
        }
    }
    match find_index(edges, &path[i]) {
        None => false,
        Some(idx) => {
            if i == path.len() - 1 {
                true
            } else {
                match &edges[idx].1 {
                    ConfigNode::Branch(children) => contains_path(children, path, i + 1),
                    ConfigNode::Leaf(_) => false,
                }
            }
        },
    }
}

proof fn lemma_insert_models(
    old_edges: Seq<(NodeType, ConfigNode)>,
    new_edges: Seq<(NodeType, ConfigNode)>,
    m: Map<Seq<NodeKey>, Seq<char>>,
    k: Seq<NodeKey>,
    opcode: String,
)
    requires
        wf_edges(old_edges),
        forall|key: Seq<NodeKey>| #[trigger] opcode_at(old_edges, key) == map_get(m, key),
        has_no_terminal(k),
        forall|r: Seq<NodeKey>|
            !is_prefix_of(r, k.push(NodeKey::MachineCode)) ==> #[trigger] node_at(new_edges, r)
                == node_at(old_edges, r),
        forall|j: int|
            1 <= j < k.len() + 1 ==> is_branch(
                #[trigger] node_at(new_edges, k.push(NodeKey::MachineCode).subrange(0, j)),
            ),
        node_at(new_edges, k.push(NodeKey::MachineCode)) == Some(ConfigNode::Leaf(opcode)),
    ensures
        wf_edges(new_edges),
        forall|key: Seq<NodeKey>| #[trigger]
            opcode_at(new_edges, key) == map_get(m.insert(k, opcode@), key),
{
    let s = k.push(NodeKey::MachineCode);
    assert forall|key: Seq<NodeKey>| #[trigger]
        opcode_at(new_edges, key) == map_get(m.insert(k, opcode@), key) by {
        let r = key.push(NodeKey::MachineCode);
        assert(opcode_at(old_edges, key) == map_get(m, key));
        if is_prefix_of(r, s) {
            if r.len() < s.len() {
                assert(r[r.len() - 1] == s[r.len() - 1]);
                assert(s[r.len() - 1] == k[r.len() - 1]);
                assert(false);
            }
            assert(r =~= s.subrange(0, s.len() as int));
            assert(r =~= s);
            assert(key =~= r.drop_last());
            assert(k =~= s.drop_last());
        } else {
            if key == k {
                assert(r =~= s.subrange(0, s.len() as int));
            }
        }
    }
    assert forall|p: Seq<NodeKey>| #[trigger] node_at(new_edges, p) is Some implies ((node_at(
        new_edges,
        p,
    )->0 is Leaf) <==> (p.last() is MachineCode)) by {
        if is_prefix_of(p, s) {
            if p.len() < s.len() {
                assert(p.last() == s[p.len() - 1]);
                assert(s[p.len() - 1] == k[p.len() - 1]);
                assert(is_branch(node_at(new_edges, s.subrange(0, p.len() as int))));
            } else {
                assert(p =~= s);
            }
        } else {
            assert(node_at(new_edges, p) == node_at(old_edges, p));
        }
    }
}

impl Config {
    /// Builds the automaton from instruction-set records, taken in order.
    ///
    /// Fails on the first record with an unknown operand kind, a malformed
    /// opcode, or the mnemonic and operand kinds of an earlier record.
    pub fn from_instructions(descs: &Vec<InstructionDesc>) -> (r: Result<Config, ConfigError>)
        ensures
            match build_result(descs@) {
                Ok(m) => r matches Ok(c) && c.wf() && c.models(m),
                Err(e) => r == Err::<Config, ConfigError>(e),
            },
    {
        let mut automaton: Vec<(NodeType, ConfigNode)> = Vec::new();
        let n = descs.len();
        let mut i: usize = 0;
        proof {
            assert(descs@.subrange(0, 0) =~= Seq::<InstructionDesc>::empty());
            assert forall|p: Seq<NodeKey>| #[trigger] node_at(automaton@, p) is None by {
                lemma_node_at_empty(p);
            }
        }
        while i < n
            invariant
                n == descs@.len(),
                i <= n,
                build_result(descs@.subrange(0, i as int)) matches Ok(m) && wf_edges(automaton@)
                    && forall|key: Seq<NodeKey>| #[trigger]
                    opcode_at(automaton@, key) == map_get(m, key),
            decreases n - i,
        {
            let ghost m = build_result(descs@.subrange(0, i as int))->Ok_0;
            proof {
                assert(descs@.subrange(0, i + 1).drop_last() =~= descs@.subrange(0, i as int));
                assert(descs@.subrange(0, i + 1).last() == descs@[i as int]);
            }
            let d = &descs[i];
            let path = match desc_path(d) {
                Ok(p) => p,
                Err(e) => {
                    proof {
                        lemma_build_err(descs@, i + 1);
                    }
                    return Err(e);
                },
            };
            let ghost k = desc_key(*d)->Ok_0;
            let ghost s = k.push(NodeKey::MachineCode);
            proof {
                let ks = operand_keys(d.arguments@)->Ok_0;
                lemma_operand_keys(d.arguments@);
                assert(k == seq![NodeKey::Mnemonic(d.mnemonic@ + d.depend_on_flag@)] + ks);
                assert forall|j: int| 0 <= j < k.len() implies !(#[trigger] k[j] is MachineCode) by {
                    if j > 0 {
                        assert(k[j] == ks[j - 1]);
                    }
                }
                assert(path@.subrange(0, path@.len() as int) =~= path@);
                assert(opcode_at(automaton@, k) == map_get(m, k));
            }
            if contains_path(&automaton, &path, 0) {
                proof {
                    assert(m.contains_key(k)) by {
                        let nd = node_at(automaton@, s);
                        assert(nd is Some);
                        assert(s.last() is MachineCode);
                    }
                    lemma_build_err(descs@, i + 1);
                }
                return Err(ConfigError::DuplicateInstruction(d.mnemonic.clone()));
            }
            let ghost old_edges = automaton@;
            proof {
                assert(!m.contains_key(k));
                assert forall|j: int| 1 <= j < s.len() implies !is_leaf(
                    #[trigger] node_at(old_edges, s.subrange(0, j)),
                ) by {
                    let p = s.subrange(0, j);
                    assert(p.last() == k[j - 1]);
                    if node_at(old_edges, p) is Some {
                        assert(!(p.last() is MachineCode));
                    }
                }
            }
            insert_path(&mut automaton, &path, 0, d.opcode.clone());
            proof {
                lemma_insert_models(old_edges, automaton@, m, k, d.opcode);
            }
            i = i + 1;
        }
        proof {
            assert(descs@.subrange(0, n as int) =~= descs@);
            lemma_build_values(descs@);
        }
        Ok(Config { automaton })
    }
}

/// Every non-empty prefix of a path that leads to a node leads to a node.
pub proof fn lemma_node_at_prefix(edges: Seq<(NodeType, ConfigNode)>, q: Seq<NodeKey>, j: int)
    requires
        node_at(edges, q) is Some,
        1 <= j <= q.len(),
    ensures
        node_at(edges, q.subrange(0, j)) is Some,
    decreases q.len(),
{
    let p = q.subrange(0, j);
    assert(p[0] == q[0]);
    if j == q.len() {
        assert(p =~= q);
    } else if j > 1 {
        match find_edge(edges, q[0]) {
            Some(ConfigNode::Branch(children)) => {
                lemma_node_at_prefix(children@, q.drop_first(), j - 1);
                assert(p.drop_first() =~= q.drop_first().subrange(0, j - 1));
            },
            _ => {},
        }
    }
}

/// A mnemonic can have a form without operands beside a form with one
/// operand: building keeps both, and the bare form's opcode is reached from
/// the mnemonic through the terminal marker alone, with no operand edge.
pub proof fn lemma_terminal_disambiguation(d0: InstructionDesc, d1: InstructionDesc, c: Config)
    requires
        d0.mnemonic@ + d0.depend_on_flag@ == d1.mnemonic@ + d1.depend_on_flag@,
        d0.arguments@.len() == 0,
        d1.arguments@.len() == 1,
        operand_named(d1.arguments@[0]@) is Some,
        is_bit_string(d0.opcode@),
        is_bit_string(d1.opcode@),
        build_result(seq![d0, d1]) matches Ok(m) ==> c.models(m),
    ensures
        build_result(seq![d0, d1]) is Ok,
        ({
            let name = d0.mnemonic@ + d0.depend_on_flag@;
            let k = operand_named(d1.arguments@[0]@)->0;
            &&& node_at(c.automaton@, seq![NodeKey::Mnemonic(name), NodeKey::MachineCode])
                matches Some(ConfigNode::Leaf(o)) && o@ == d0.opcode@
            &&& c.opcode_of(seq![NodeKey::Mnemonic(name), NodeKey::Operand(k)]) == Some(
                d1.opcode@,
            )
        }),
{
    reveal_with_fuel(operand_keys, 2);
    reveal_with_fuel(build_result, 3);
    let name = d0.mnemonic@ + d0.depend_on_flag@;
    let k = operand_named(d1.arguments@[0]@)->0;
    let descs = seq![d0, d1];
    assert(d1.arguments@.last() == d1.arguments@[0]);
    assert(descs.last() == d1);
    assert(seq![d0].last() == d0);
    assert(descs.drop_last() =~= seq![d0]);
    assert(seq![d0].drop_last() =~= Seq::<InstructionDesc>::empty());
    assert(d1.arguments@.drop_last() =~= Seq::<String>::empty());
    let ks1 = seq![NodeKey::Operand(k)];
    assert(operand_keys(d1.arguments@) == Ok::<Seq<NodeKey>, ConfigError>(
        Seq::<NodeKey>::empty().push(NodeKey::Operand(k)),
    ));
    let key0 = seq![NodeKey::Mnemonic(name)] + Seq::<NodeKey>::empty();
    let key1 = seq![NodeKey::Mnemonic(name)] + Seq::<NodeKey>::empty().push(NodeKey::Operand(k));
    assert(key0 =~= seq![NodeKey::Mnemonic(name)]);
    assert(key1 =~= seq![NodeKey::Mnemonic(name), NodeKey::Operand(k)]);
    assert(desc_key(d0) == Ok::<Seq<NodeKey>, ConfigError>(key0));
    assert(desc_key(d1) == Ok::<Seq<NodeKey>, ConfigError>(key1));
    assert(key0 != key1) by {
        assert(key0.len() != key1.len());
    }
    let m0 = Map::<Seq<NodeKey>, Seq<char>>::empty().insert(key0, d0.opcode@);
    assert(build_result(seq![d0]) == Ok::<Map<Seq<NodeKey>, Seq<char>>, ConfigError>(m0));
    assert(!m0.contains_key(key1));
    let m = Map::<Seq<NodeKey>, Seq<char>>::empty().insert(key0, d0.opcode@).insert(
        key1,
        d1.opcode@,
    );
    assert(build_result(descs) == Ok::<Map<Seq<NodeKey>, Seq<char>>, ConfigError>(m));
    assert(c.opcode_of(key0) == map_get(m, key0));
    assert(c.opcode_of(key1) == map_get(m, key1));
    assert(key0.push(NodeKey::MachineCode) =~= seq![NodeKey::Mnemonic(name), NodeKey::MachineCode]);
}

impl ConfigNode {
    /// One step of a lookup: the node under the edge with the given key, or
    /// `None` when this is a leaf or has no such edge.
    pub fn child(&self, key: &NodeType) -> (r: Option<&ConfigNode>)
        ensures
            match self {
                ConfigNode::Branch(edges) => match r {
                    Some(n) => find_edge(edges@, key@) == Some(*n),
                    None => find_edge(edges@, key@) is None,
                },
                ConfigNode::Leaf(_) => r is None,
            },
    {
        match self {
            ConfigNode::Branch(edges) => match find_index(edges, key) {
                Some(i) => Some(&edges[i].1),
                None => None,
            },
            ConfigNode::Leaf(_) => None,
        }
    }
}

impl Config {
    /// The first step of a lookup: the node under a mnemonic's edge, if any.
    pub fn start(&self, key: &NodeType) -> (r: Option<&ConfigNode>)
        ensures
            match r {
                Some(n) => find_edge(self.automaton@, key@) == Some(*n),
                None => find_edge(self.automaton@, key@) is None,
            },
    {
        match find_index(&self.automaton, key) {
            Some(i) => Some(&self.automaton[i].1),
            None => None,
        }
    }
}

} // verus!
