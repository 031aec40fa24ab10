//! The graph's data model: node and edge kinds, nodes, edges, hyperedges and
//! the raw parser records (calls, inheritance, fields, imports, locals).

use vstd::prelude::*;

verus! {

/// What a graph node represents. `Concept` is only ever produced with an LLM.
#[derive(Debug, Clone, Copy, PartialEq, Eq, Hash, Structural)]
pub enum NodeLabel {
    Project,
    Package,
    Folder,
    File,
    Module,
    Class,
    Function,
    Method,
    Interface,
    Enum,
    Type,
    Route,
    Resource,
    Document,
    Image,
    Figure,
    Topic,
    Concept,
}

#[derive(Debug, Clone, Copy, PartialEq, Eq, Hash, Structural)]
pub enum EdgeRelation {
    Calls,
    AsyncCalls,
    UsesType,
    Implements,
    Inherits,
    Defines,
    MemberOf,
    Contains,
    ContainsFile,
    ContainsFolder,
    ContainsPackage,
    Override,
    HttpCalls,
    Emits,
    ListensOn,
    PublishesTo,
    SubscribesTo,
    Configures,
    Tests,
    FileChangesWith,
    Similar,
    SemanticallySimilar,
    DataFlows,
    ConceptuallyRelated,
    RationaleFor,
    ParticipateIn,
    Implement,
    Form,
    MemberOfFlow,
}

#[derive(Debug, Clone, Copy, PartialEq, Eq, Hash, Structural)]
pub enum HyperedgeRelation {
    ParticipateIn,
    Implement,
    Form,
    MemberOfFlow,
}

/// Which mechanism produced an edge, most precise first.
#[derive(Debug, Clone, Copy, PartialEq, Eq, Hash, Structural)]
pub enum ResolutionTier {
    Scip,
    TreeSitter,
    Llm,
    Ingest,
}

#[derive(Debug, Clone, Copy, PartialEq, Eq, Hash, Structural)]
pub enum Confidence {
    Extracted,
    Inferred,
    Ambiguous,
}

/// One metadata value: text or a count.
#[derive(Debug, Clone)]
pub enum MetaValue {
    Text(String),
    Count(u32),
}

/// Node/edge metadata: key → value pairs, each key at most once.
#[derive(Debug, Clone)]
pub struct Metadata {
    pub entries: Vec<(String, MetaValue)>,
}

impl MetaValue {
    /// A copy equal to `self`.
    pub fn duplicate(&self) -> (r: MetaValue)
        ensures
            r == *self,
    {
        match self {
            MetaValue::Text(t) => MetaValue::Text(t.clone()),
            MetaValue::Count(c) => MetaValue::Count(*c),
        }
    }
}

impl Metadata {
    /// Keys occur at most once.
    pub open spec fn wf(&self) -> bool {
        forall|i: int, j: int|
            0 <= i < j < self.entries@.len() ==> self.entries@[i].0@ != self.entries@[j].0@
    }

    /// The value stored under `key`, if any.
    pub open spec fn get(&self, key: Seq<char>) -> Option<MetaValue> {
        if exists|i: int| 0 <= i < self.entries@.len() && self.entries@[i].0@ == key {
            let i = choose|i: int| 0 <= i < self.entries@.len() && self.entries@[i].0@ == key;
            Some(self.entries@[i].1)
        } else {
            None
        }
    }

    pub fn new() -> (m: Metadata)
        ensures
            m.entries@.len() == 0,
            m.wf(),
    {
        Metadata { entries: Vec::new() }
    }

    /// A copy equal to `self`.
    pub fn duplicate(&self) -> (r: Metadata)
        ensures
            r.entries@ == self.entries@,
    {
        let mut out: Vec<(String, MetaValue)> = Vec::new();
        let n = self.entries.len();
        for i in 0..n
            invariant
                n == self.entries@.len(),
                out@ == self.entries@.take(i as int),
        {
            let k = self.entries[i].0.clone();
            let v = self.entries[i].1.duplicate();
            out.push((k, v));
            proof {
                assert(self.entries@.take(i + 1) =~= self.entries@.take(i as int).push(self.entries@[i as int]));
            }
        }
        proof {
            assert(self.entries@.take(n as int) =~= self.entries@);
        }
        Metadata { entries: out }
    }

    /// Set `key` to `value`, replacing an existing entry in place or appending.
    pub fn insert(&mut self, key: String, value: MetaValue)
        requires
            old(self).wf(),
        ensures
            final(self).wf(),
            forall|k: Seq<char>|
                #[trigger] final(self).get(k) == if k == key@ {
                    Some(value)
                } else {
                    old(self).get(k)
                },
    {
        let n = self.entries.len();
        let mut i: usize = 0;
        while i < n
            invariant
                n == self.entries@.len(),
                self.entries@ == old(self).entries@,
                0 <= i <= n,
                forall|k: int| 0 <= k < i ==> old(self).entries@[k].0@ != key@,
            ensures
                0 <= i <= n,
                i < n ==> old(self).entries@[i as int].0@ == key@,
                forall|k: int| 0 <= k < i ==> old(self).entries@[k].0@ != key@,
            decreases n - i,
        {
            if self.entries[i].0 == key {
                break;
            }
            i = i + 1;
        }
        let ghost before = self.entries@;
        if i < n {
            self.entries.set(i, (key, value));
            proof {
                assert(forall|j: int| 0 <= j < n ==> #[trigger] self.entries@[j].0@ == before[j].0@);
                assert(self.wf());
                assert forall|k: Seq<char>|
                    #[trigger] self.get(k) == if k == key@ {
                        Some(value)
                    } else {
                        old(self).get(k)
                    } by {
                    if k == key@ {
                        assert(self.entries@[i as int].0@ == k);
                    } else {
                        if exists|j: int| 0 <= j < before.len() && before[j].0@ == k {
                            let j = choose|j: int| 0 <= j < before.len() && before[j].0@ == k;
                            assert(self.entries@[j].0@ == k);
                            let j2 = choose|j2: int|
                                0 <= j2 < self.entries@.len() && self.entries@[j2].0@ == k;
                            assert(j2 == j);
                        }
                    }
                }
            }
        } else {
            self.entries.push((key, value));
            proof {
                assert(forall|j: int| 0 <= j < n ==> #[trigger] self.entries@[j] == before[j]);
                assert(self.wf());
                assert forall|k: Seq<char>|
                    #[trigger] self.get(k) == if k == key@ {
                        Some(value)
                    } else {
                        old(self).get(k)
                    } by {
                    if k == key@ {
                        assert(self.entries@[n as int].0@ == k);
                    } else {
                        if exists|j: int| 0 <= j < before.len() && before[j].0@ == k {
                            let j = choose|j: int| 0 <= j < before.len() && before[j].0@ == k;
                            assert(self.entries@[j].0@ == k);
                            let j2 = choose|j2: int|
                                0 <= j2 < self.entries@.len() && self.entries@[j2].0@ == k;
                            assert(j2 == j);
                        }
                    }
                }
            }
        }
    }
}

/// A graph node. Rank scores computed by the analytics pass are kept by the
/// application layer alongside the node.
#[derive(Debug, Clone)]
pub struct Node {
    pub id: String,
    pub label: NodeLabel,
    pub name: String,
    pub file_path: String,
    pub line_start: u32,
    pub line_end: u32,
    pub language: String,
    pub metadata: Metadata,
    pub community: Option<u32>,
}

#[derive(Debug, Clone)]
pub struct Edge {
    pub src: String,
    pub dst: String,
    pub relation: EdgeRelation,
    pub tier: ResolutionTier,
    pub confidence: Confidence,
    pub src_file: String,
    pub src_line: u32,
    pub metadata: Metadata,
}

/// The plain content of an edge (its metadata aside).
pub struct EdgeV {
    pub src: Seq<char>,
    pub dst: Seq<char>,
    pub relation: EdgeRelation,
    pub tier: ResolutionTier,
    pub confidence: Confidence,
    pub src_file: Seq<char>,
    pub src_line: u32,
}

impl View for Edge {
    type V = EdgeV;

    open spec fn view(&self) -> EdgeV {
        EdgeV {
            src: self.src@,
            dst: self.dst@,
            relation: self.relation,
            tier: self.tier,
            confidence: self.confidence,
            src_file: self.src_file@,
            src_line: self.src_line,
        }
    }
}

impl Edge {
    /// A copy equal to `self`.
    pub fn duplicate(&self) -> (r: Edge)
        ensures
            r@ == self@,
            r.metadata.entries@ == self.metadata.entries@,
    {
        Edge {
            src: self.src.clone(),
            dst: self.dst.clone(),
            relation: self.relation,
            tier: self.tier,
            confidence: self.confidence,
            src_file: self.src_file.clone(),
            src_line: self.src_line,
            metadata: self.metadata.duplicate(),
        }
    }
}

impl Node {
    /// A copy equal to `self`.
    pub fn duplicate(&self) -> (r: Node)
        ensures
            r.id@ == self.id@,
            r.label == self.label,
            r.name@ == self.name@,
            r.file_path@ == self.file_path@,
            r.line_start == self.line_start,
            r.line_end == self.line_end,
            r.language@ == self.language@,
            r.metadata.entries@ == self.metadata.entries@,
            r.community == self.community,
    {
        Node {
            id: self.id.clone(),
            label: self.label,
            name: self.name.clone(),
            file_path: self.file_path.clone(),
            line_start: self.line_start,
            line_end: self.line_end,
            language: self.language.clone(),
            metadata: self.metadata.duplicate(),
            community: self.community,
        }
    }
}

#[derive(Debug, Clone)]
pub struct Hyperedge {
    pub id: String,
    pub relation: HyperedgeRelation,
    pub label: String,
    pub confidence: Confidence,
    pub tier: ResolutionTier,
    pub metadata: Metadata,
}

#[derive(Debug, Clone)]
pub struct HyperedgeMember {
    pub hyperedge_id: String,
    pub node_id: String,
    pub role: Option<String>,
}

/// A class/type → supertype reference captured by the parser.
#[derive(Debug, Clone, Copy, PartialEq, Eq, Hash, Structural)]
pub enum InheritKind {
    Extends,
    Implements,
}

#[derive(Debug, Clone)]
pub struct RawInherit {
    pub impl_name: String,
    pub super_name: String,
    pub kind: InheritKind,
}

/// What a call is invoked on.
#[derive(Debug, Clone)]
pub enum Receiver {
    Bare,
    SelfThis,
    Super,
    Named(String),
    /// `this.field.method()`: the field is looked up in the enclosing class.
    Field(String),
}

impl Default for Receiver {
    fn default() -> (r: Receiver)
        ensures
            r is Bare,
    {
        Receiver::Bare
    }
}

/// A typed field of a class: `field_name: ty_name`.
#[derive(Debug, Clone)]
pub struct RawField {
    pub class_id: String,
    pub field_name: String,
    pub ty_name: String,
}

/// An import binding: `name` is usable in `file_path` and comes from `module`.
#[derive(Debug, Clone)]
pub struct RawImport {
    pub file_path: String,
    pub name: String,
    pub module: String,
}

/// A local variable whose declared type the parser recorded in a function body.
#[derive(Debug, Clone)]
pub struct RawLocal {
    pub caller_id: String,
    pub var_name: String,
    pub ty_name: String,
}

/// An unresolved call reference captured by the parser.
#[derive(Debug, Clone)]
pub struct RawCall {
    pub caller_id: String,
    pub callee_name: String,
    pub line: u32,
    pub receiver: Receiver,
    pub enclosing_class: Option<String>,
}

/// The plain content of a metadata value.
pub enum MetaV {
    Text(Seq<char>),
    Count(u32),
}

impl View for MetaValue {
    type V = MetaV;

    open spec fn view(&self) -> MetaV {
        match self {
            MetaValue::Text(t) => MetaV::Text(t@),
            MetaValue::Count(c) => MetaV::Count(*c),
        }
    }
}

/// The plain content of metadata: its entries in order.
pub open spec fn meta_view(m: Metadata) -> Seq<(Seq<char>, MetaV)> {
    m.entries@.map_values(|e: (String, MetaValue)| (e.0@, e.1@))
}

/// The plain content of a node.
pub struct NodeV {
    pub id: Seq<char>,
    pub label: NodeLabel,
    pub name: Seq<char>,
    pub file_path: Seq<char>,
    pub line_start: u32,
    pub line_end: u32,
    pub language: Seq<char>,
    pub meta: Seq<(Seq<char>, MetaV)>,
    pub community: Option<u32>,
}

impl View for Node {
    type V = NodeV;

    open spec fn view(&self) -> NodeV {
        NodeV {
            id: self.id@,
            label: self.label,
            name: self.name@,
            file_path: self.file_path@,
            line_start: self.line_start,
            line_end: self.line_end,
            language: self.language@,
            meta: meta_view(self.metadata),
            community: self.community,
        }
    }
}

/// The plain content of a receiver.
pub enum ReceiverV {
    Bare,
    SelfThis,
    Super,
    Named(Seq<char>),
    Field(Seq<char>),
}

impl View for Receiver {
    type V = ReceiverV;

    open spec fn view(&self) -> ReceiverV {
        match self {
            Receiver::Bare => ReceiverV::Bare,
            Receiver::SelfThis => ReceiverV::SelfThis,
            Receiver::Super => ReceiverV::Super,
            Receiver::Named(s) => ReceiverV::Named(s@),
            Receiver::Field(s) => ReceiverV::Field(s@),
        }
    }
}

/// The plain content of a raw call.
pub struct CallV {
    pub caller_id: Seq<char>,
    pub callee_name: Seq<char>,
    pub line: u32,
    pub receiver: ReceiverV,
    pub enclosing_class: Option<Seq<char>>,
}

impl View for RawCall {
    type V = CallV;

    open spec fn view(&self) -> CallV {
        CallV {
            caller_id: self.caller_id@,
            callee_name: self.callee_name@,
            line: self.line,
            receiver: self.receiver@,
            enclosing_class: match self.enclosing_class {
                Some(c) => Some(c@),
                None => None,
            },
        }
    }
}

/// The plain content of an inheritance record.
pub struct InheritV {
    pub impl_name: Seq<char>,
    pub super_name: Seq<char>,
    pub kind: InheritKind,
}

impl View for RawInherit {
    type V = InheritV;

    open spec fn view(&self) -> InheritV {
        InheritV { impl_name: self.impl_name@, super_name: self.super_name@, kind: self.kind }
    }
}

/// The plain content of a field record.
pub struct FieldV {
    pub class_id: Seq<char>,
    pub field_name: Seq<char>,
    pub ty_name: Seq<char>,
}

impl View for RawField {
    type V = FieldV;

    open spec fn view(&self) -> FieldV {
        FieldV { class_id: self.class_id@, field_name: self.field_name@, ty_name: self.ty_name@ }
    }
}

/// The plain content of an import record.
pub struct ImportV {
    pub file_path: Seq<char>,
    pub name: Seq<char>,
    pub module: Seq<char>,
}

impl View for RawImport {
    type V = ImportV;

    open spec fn view(&self) -> ImportV {
        ImportV { file_path: self.file_path@, name: self.name@, module: self.module@ }
    }
}

/// The plain content of a local-type record.
pub struct LocalV {
    pub caller_id: Seq<char>,
    pub var_name: Seq<char>,
    pub ty_name: Seq<char>,
}

impl View for RawLocal {
    type V = LocalV;

    open spec fn view(&self) -> LocalV {
        LocalV { caller_id: self.caller_id@, var_name: self.var_name@, ty_name: self.ty_name@ }
    }
}

} // verus!
