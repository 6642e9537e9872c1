//! The compiled form of a script: a tree of blocks, the sections among them,
//! an interned string table and the declared variables.
use vstd::prelude::*;

use crate::arithmetic::{vars_ok, VariableResolver};
use crate::model::{vars_below, ComparisonOperator, Expression, Value, ValueKind, VariableId};
use crate::text::str_eq;

verus! {

pub type BlockId = usize;

pub type SectionId = usize;

pub type StringId = usize;

/// What a block does.
#[derive(Debug, Clone, PartialEq, Eq)]
pub enum BlockType {
    Start,
    End,
    String(StringId),
    Option(StringId),
    Section(SectionId),
    GoTo(SectionId),
    GoToAndBack(SectionId),
    GoToStart,
    GoToRestart,
    GoToEnd,
    SetVariable { variable_id: VariableId, value: Value },
    RequireVariable { variable_id: VariableId, operator: ComparisonOperator, value: Value },
}

/// A node of the script tree.
#[derive(Debug, Clone, PartialEq, Eq)]
pub struct Block {
    pub block_type: BlockType,
    pub parent_id: Option<BlockId>,
    pub children: Vec<BlockId>,
    pub level: usize,
    pub line: usize,
}

impl Block {
    /// A block with no children, at line 0.
    pub fn new(block_type: BlockType, parent_id: Option<BlockId>, level: usize) -> (b: Self)
        ensures
            b.block_type == block_type,
            b.parent_id == parent_id,
            b.children@.len() == 0,
            b.level == level,
            b.line == 0,
    {
        Block { block_type, parent_id, children: Vec::new(), level, line: 0 }
    }

    /// A block with no children, found at `line`.
    pub fn with_line(
        block_type: BlockType,
        parent_id: Option<BlockId>,
        level: usize,
        line: usize,
    ) -> (b: Self)
        ensures
            b.block_type == block_type,
            b.parent_id == parent_id,
            b.children@.len() == 0,
            b.level == level,
            b.line == line,
    {
        Block { block_type, parent_id, children: Vec::new(), level, line }
    }
}

/// A named section of the script.
#[derive(Debug, Clone, PartialEq, Eq)]
pub struct Section {
    /// The section's block.
    pub block_id: BlockId,
    /// Display name.
    pub name: StringId,
    /// Identifier (the display name when none is given).
    pub id: StringId,
    /// Display names of the section and its ancestors, joined by ` \ `.
    pub path: StringId,
    /// Identifiers of the section and its ancestors, joined by ` \ `.
    pub id_path: StringId,
}

impl Section {
    pub fn new(
        block_id: BlockId,
        name: StringId,
        id: StringId,
        path: StringId,
        id_path: StringId,
    ) -> (s: Self)
        ensures
            s.block_id == block_id,
            s.name == name,
            s.id == id,
            s.path == path,
            s.id_path == id_path,
    {
        Section { block_id, name, id, path, id_path }
    }
}

/// A declared variable and its default value.
#[derive(Debug, Clone, PartialEq, Eq)]
pub struct Variable {
    pub name: String,
    pub default: Value,
}

impl Variable {
    pub fn new(name: String, default: Value) -> (v: Self)
        ensures
            v.name == name,
            v.default == default,
    {
        Variable { name, default }
    }

    /// The declared kind (that of the default value).
    pub fn kind(&self) -> (k: ValueKind)
        ensures
            k == self.default.kind_spec(),
    {
        self.default.kind()
    }
}

/// The compiled script.
#[derive(Debug, Clone, PartialEq, Eq)]
pub struct Database {
    pub blocks: Vec<Block>,
    pub sections: Vec<Section>,
    pub strings: Vec<String>,
    pub variables: Vec<Variable>,
    /// Section id paths and the sections they name.
    pub section_registry: Vec<(String, SectionId)>,
}

/// The first variable named `name`, if any.
pub open spec fn first_variable_named(vars: Seq<Variable>, name: Seq<char>) -> Option<VariableId> {
    if exists|i: int| 0 <= i < vars.len() && #[trigger] vars[i].name@ == name {
        let i = choose|i: int|
            0 <= i < vars.len() && #[trigger] vars[i].name@ == name && forall|j: int|
                0 <= j < i ==> vars[j].name@ != name;
        Some(i as VariableId)
    } else {
        None
    }
}

/// Proves that a first match exists when any match does.
pub proof fn lemma_first_match_exists(vars: Seq<Variable>, name: Seq<char>, k: int)
    requires
        0 <= k < vars.len(),
        vars[k].name@ == name,
    ensures
        exists|i: int|
            0 <= i < vars.len() && #[trigger] vars[i].name@ == name && forall|j: int|
                0 <= j < i ==> vars[j].name@ != name,
    decreases k,
{
    if exists|j: int| 0 <= j < k && vars[j].name@ == name {
        let j = choose|j: int| 0 <= j < k && vars[j].name@ == name;
        lemma_first_match_exists(vars, name, j);
    } else {
        assert(forall|j: int| 0 <= j < k ==> vars[j].name@ != name);
    }
}

impl Database {
    /// An empty database.
    pub fn new() -> (db: Self)
        ensures
            db.blocks@.len() == 0,
            db.sections@.len() == 0,
            db.strings@.len() == 0,
            db.variables@.len() == 0,
            db.section_registry@.len() == 0,
    {
        Database {
            blocks: Vec::new(),
            sections: Vec::new(),
            strings: Vec::new(),
            variables: Vec::new(),
            section_registry: Vec::new(),
        }
    }

    /// Interns `s`, returning its index in the string table.
    pub fn add_string(&mut self, s: String) -> (id: StringId)
        ensures
            id == old(self).strings@.len(),
            final(self).strings@ == old(self).strings@.push(s),
            final(self).blocks == old(self).blocks,
            final(self).sections == old(self).sections,
            final(self).variables == old(self).variables,
            final(self).section_registry == old(self).section_registry,
    {
        let id = self.strings.len();
        self.strings.push(s);
        id
    }

    /// Adds a section record, returning its index.
    pub fn add_section(&mut self, section: Section) -> (id: SectionId)
        ensures
            id == old(self).sections@.len(),
            final(self).sections@ == old(self).sections@.push(section),
            final(self).blocks == old(self).blocks,
            final(self).strings == old(self).strings,
            final(self).variables == old(self).variables,
            final(self).section_registry == old(self).section_registry,
    {
        let id = self.sections.len();
        self.sections.push(section);
        id
    }

    /// Declares a variable, returning its id.
    pub fn add_variable(&mut self, variable: Variable) -> (id: VariableId)
        ensures
            id == old(self).variables@.len(),
            final(self).variables@ == old(self).variables@.push(variable),
            final(self).blocks == old(self).blocks,
            final(self).strings == old(self).strings,
            final(self).sections == old(self).sections,
            final(self).section_registry == old(self).section_registry,
    {
        let id = self.variables.len();
        self.variables.push(variable);
        id
    }

    /// Appends `block` and records it among its parent's children.
    pub fn add_block(&mut self, block: Block) -> (id: BlockId)
        requires
            block.parent_id matches Some(p) ==> p < old(self).blocks@.len(),
        ensures
            id == old(self).blocks@.len(),
            final(self).blocks@.len() == old(self).blocks@.len() + 1,
            final(self).blocks@[id as int] == block,
            forall|i: int|
                0 <= i < old(self).blocks@.len() && block.parent_id != Some(i as BlockId)
                    ==> final(self).blocks@[i] == old(self).blocks@[i],
            block.parent_id matches Some(p) ==> {
                &&& final(self).blocks@[p as int].children@ == old(self).blocks@[p as int].children@.push(id)
                &&& final(self).blocks@[p as int].block_type == old(self).blocks@[p as int].block_type
                &&& final(self).blocks@[p as int].parent_id == old(self).blocks@[p as int].parent_id
                &&& final(self).blocks@[p as int].level == old(self).blocks@[p as int].level
                &&& final(self).blocks@[p as int].line == old(self).blocks@[p as int].line
            },
            final(self).strings == old(self).strings,
            final(self).sections == old(self).sections,
            final(self).variables == old(self).variables,
            final(self).section_registry == old(self).section_registry,
    {
        let id = self.blocks.len();
        let parent = block.parent_id;
        self.blocks.push(block);
        if let Some(p) = parent {
            let mut parent_block = self.blocks[p].clone_block();
            parent_block.children.push(id);
            self.blocks.set(p, parent_block);
        }
        id
    }

    /// The id of the first variable named `name`.
    pub fn variable_id(&self, name: &str) -> (r: Option<VariableId>)
        ensures
            r == first_variable_named(self.variables@, name@),
    {
        let mut i: usize = 0;
        while i < self.variables.len()
            invariant
                0 <= i <= self.variables@.len(),
                forall|j: int| 0 <= j < i ==> self.variables@[j].name@ != name@,
            decreases self.variables.len() - i,
        {
            if str_eq(self.variables[i].name.as_str(), name) {
                proof {
                    lemma_first_match_exists(self.variables@, name@, i as int);
                    let w = choose|w: int|
                        0 <= w < self.variables@.len() && #[trigger] self.variables@[w].name@
                            == name@ && forall|j: int|
                            0 <= j < w ==> self.variables@[j].name@ != name@;
                    assert(w == i);
                }
                return Some(i);
            }
            i = i + 1;
        }
        None
    }
}

/// Declared variables resolve by name (the first declaration wins).
impl VariableResolver for Database {
    open spec fn resolves(&self, name: Seq<char>) -> Option<VariableId> {
        first_variable_named(self.variables@, name)
    }

    fn resolve(&self, name: &str) -> (r: Option<VariableId>) {
        self.variable_id(name)
    }

    open spec fn flags(&self, id: VariableId) -> bool {
        id < self.variables@.len() && self.variables@[id as int].default is Boolean
    }

    fn is_flag(&self, id: VariableId) -> (b: bool) {
        if id < self.variables.len() {
            match &self.variables[id].default {
                Value::Boolean(_) => true,
                _ => false,
            }
        } else {
            false
        }
    }
}

/// A name that resolves names a declared variable.
pub proof fn lemma_first_variable_below(vars: Seq<Variable>, name: Seq<char>)
    requires
        vars.len() <= usize::MAX,
    ensures
        first_variable_named(vars, name) matches Some(id) ==> id < vars.len(),
{
    if exists|i: int| 0 <= i < vars.len() && #[trigger] vars[i].name@ == name {
        let k = choose|k: int| 0 <= k < vars.len() && #[trigger] vars[k].name@ == name;
        lemma_first_match_exists(vars, name, k);
        let i = choose|i: int|
            0 <= i < vars.len() && #[trigger] vars[i].name@ == name && forall|j: int|
                0 <= j < i ==> vars[j].name@ != name;
        assert((i as VariableId) as int == i);
    }
}

/// Expressions resolved against the database only mention its variables.
pub proof fn lemma_resolved_below(e: Expression, db: Database)
    requires
        vars_ok(e, db),
        db.variables@.len() <= usize::MAX,
    ensures
        vars_below(e, db.variables@.len()),
    decreases e,
{
    match e {
        Expression::Variable(id) => {
            let n = choose|n: Seq<char>| db.resolves(n) == Some(id);
            lemma_first_variable_below(db.variables@, n);
        },
        Expression::Binary { left, right, .. } => {
            lemma_resolved_below(*left, db);
            lemma_resolved_below(*right, db);
        },
        Expression::Literal(_) => {},
    }
}

impl Block {
    /// A copy of this block.
    pub fn clone_block(&self) -> (b: Block)
        ensures
            b.block_type == self.block_type,
            b.parent_id == self.parent_id,
            b.children@ == self.children@,
            b.level == self.level,
            b.line == self.line,
    {
        let children = self.children.clone();
        assert(children@ =~= self.children@);
        Block {
            block_type: self.block_type.clone_type(),
            parent_id: self.parent_id,
            children,
            level: self.level,
            line: self.line,
        }
    }
}

impl BlockType {
    /// A copy of this block type.
    pub fn clone_type(&self) -> (t: BlockType)
        ensures
            t == *self,
    {
        match self {
            BlockType::Start => BlockType::Start,
            BlockType::End => BlockType::End,
            BlockType::String(s) => BlockType::String(*s),
            BlockType::Option(s) => BlockType::Option(*s),
            BlockType::Section(s) => BlockType::Section(*s),
            BlockType::GoTo(s) => BlockType::GoTo(*s),
            BlockType::GoToAndBack(s) => BlockType::GoToAndBack(*s),
            BlockType::GoToStart => BlockType::GoToStart,
            BlockType::GoToRestart => BlockType::GoToRestart,
            BlockType::GoToEnd => BlockType::GoToEnd,
            BlockType::SetVariable { variable_id, value } => BlockType::SetVariable {
                variable_id: *variable_id,
                value: value.duplicate(),
            },
            BlockType::RequireVariable { variable_id, operator, value } => BlockType::RequireVariable {
                variable_id: *variable_id,
                operator: *operator,
                value: value.duplicate(),
            },
        }
    }
}


impl Database {
    /// The tree shape: every block's parent comes before it and lists it
    /// among its children, and every child listed comes after its parent and
    /// names it as parent.
    pub open spec fn tree_wf(&self) -> bool {
        let blocks = self.blocks@;
        &&& forall|c: int|
            0 <= c < blocks.len() ==> ((#[trigger] blocks[c]).parent_id matches Some(p) ==> p < c
                && blocks[p as int].children@.contains(c as BlockId))
        &&& forall|i: int, k: int|
            0 <= i < blocks.len() && 0 <= k < blocks[i].children@.len() ==> {
                let c = #[trigger] blocks[i].children@[k];
                &&& i < c < blocks.len()
                &&& blocks[c as int].parent_id == Some(i as BlockId)
            }
    }

    /// Section records and section blocks point at each other, and the
    /// records' strings exist.
    pub open spec fn sections_wf(&self) -> bool {
        &&& forall|s: int|
            0 <= s < self.sections@.len() ==> {
                let sec = #[trigger] self.sections@[s];
                &&& sec.block_id < self.blocks@.len()
                &&& self.blocks@[sec.block_id as int].block_type == BlockType::Section(s as SectionId)
                &&& sec.name < self.strings@.len()
                &&& sec.id < self.strings@.len()
                &&& sec.path < self.strings@.len()
                &&& sec.id_path < self.strings@.len()
            }
        &&& forall|i: int|
            0 <= i < self.blocks@.len() ==> ((#[trigger] self.blocks@[i]).block_type matches BlockType::Section(s)
                ==> s < self.sections@.len() && self.sections@[s as int].block_id == i)
    }

    /// What a block's type refers to exists; a jump's target may still be
    /// unresolved when `pending`.
    pub open spec fn type_refs_ok(&self, t: BlockType, pending: bool) -> bool {
        match t {
            BlockType::String(s) => s < self.strings@.len(),
            BlockType::Option(s) => s < self.strings@.len(),
            BlockType::Section(s) => s < self.sections@.len(),
            BlockType::GoTo(s) => pending || s < self.sections@.len(),
            BlockType::GoToAndBack(s) => pending || s < self.sections@.len(),
            BlockType::SetVariable { variable_id, .. } => variable_id < self.variables@.len(),
            BlockType::RequireVariable { variable_id, .. } => variable_id < self.variables@.len(),
            _ => true,
        }
    }

    /// A consistent database; with `pending`, jumps may await resolution.
    pub open spec fn wf_with(&self, pending: bool) -> bool {
        &&& self.tree_wf()
        &&& self.sections_wf()
        &&& forall|i: int| 0 <= i < self.blocks@.len() ==> self.type_refs_ok(#[trigger] self.blocks@[i].block_type, pending)
    }

    /// A consistent database whose jumps all have targets.
    pub open spec fn wf(&self) -> bool {
        self.wf_with(false)
    }

    /// Replaces the type of block `id`.
    pub fn set_block_type(&mut self, id: BlockId, t: BlockType)
        requires
            id < old(self).blocks@.len(),
        ensures
            final(self).blocks@.len() == old(self).blocks@.len(),
            final(self).blocks@[id as int].block_type == t,
            final(self).blocks@[id as int].parent_id == old(self).blocks@[id as int].parent_id,
            final(self).blocks@[id as int].children@ == old(self).blocks@[id as int].children@,
            final(self).blocks@[id as int].level == old(self).blocks@[id as int].level,
            final(self).blocks@[id as int].line == old(self).blocks@[id as int].line,
            forall|i: int| 0 <= i < old(self).blocks@.len() && i != id ==> final(self).blocks@[i] == old(self).blocks@[i],
            final(self).strings == old(self).strings,
            final(self).sections == old(self).sections,
            final(self).variables == old(self).variables,
            final(self).section_registry == old(self).section_registry,
    {
        let mut block = self.blocks[id].clone_block();
        block.block_type = t;
        self.blocks.set(id, block);
    }

    /// Adds a section named `name` (with identifier `id`, display path
    /// `path` and identifier path `id_path`) as a block under `parent_id`.
    pub fn add_section_block(
        &mut self,
        name: StringId,
        id: StringId,
        path: StringId,
        id_path: StringId,
        parent_id: Option<BlockId>,
        level: usize,
        line: usize,
    ) -> (r: (BlockId, SectionId))
        requires
            old(self).wf_with(true),
            parent_id matches Some(p) ==> p < old(self).blocks@.len(),
            name < old(self).strings@.len(),
            id < old(self).strings@.len(),
            path < old(self).strings@.len(),
            id_path < old(self).strings@.len(),
        ensures
            final(self).wf_with(true),
            r.0 == old(self).blocks@.len(),
            r.1 == old(self).sections@.len(),
            final(self).blocks@.len() == old(self).blocks@.len() + 1,
            final(self).sections@ == old(self).sections@.push(Section { block_id: r.0, name, id, path, id_path }),
            final(self).blocks@[r.0 as int].block_type == BlockType::Section(r.1),
            final(self).blocks@[r.0 as int].parent_id == parent_id,
            final(self).blocks@[r.0 as int].level == level,
            final(self).blocks@[r.0 as int].line == line,
            forall|i: int|
                0 <= i < old(self).blocks@.len() ==> (#[trigger] final(self).blocks@[i]).block_type == old(self).blocks@[i].block_type
                    && final(self).blocks@[i].parent_id == old(self).blocks@[i].parent_id
                    && final(self).blocks@[i].line == old(self).blocks@[i].line
                    && final(self).blocks@[i].level == old(self).blocks@[i].level,
            final(self).strings == old(self).strings,
            final(self).variables == old(self).variables,
    {
        let block_id = self.blocks.len();
        let section_id = self.sections.len();
        let ghost before = *self;
        self.add_section(Section::new(block_id, name, id, path, id_path));
        let ghost mid = *self;
        let block = Block::with_line(BlockType::Section(section_id), parent_id, level, line);
        let ghost new_block = block;
        let added = self.add_block(block);
        proof {
            lemma_add_block_tree(mid, *self, new_block, added);
            assert forall|s: int| 0 <= s < self.sections@.len() implies {
                let sec = #[trigger] self.sections@[s];
                &&& sec.block_id < self.blocks@.len()
                &&& self.blocks@[sec.block_id as int].block_type == BlockType::Section(s as SectionId)
                &&& sec.name < self.strings@.len()
                &&& sec.id < self.strings@.len()
                &&& sec.path < self.strings@.len()
                &&& sec.id_path < self.strings@.len()
            } by {
                if s < section_id {
                    assert(before.sections@[s] == self.sections@[s]);
                }
            }
            assert forall|i: int| 0 <= i < self.blocks@.len() implies ((#[trigger] self.blocks@[i]).block_type matches BlockType::Section(s)
                ==> s < self.sections@.len() && self.sections@[s as int].block_id == i) by {
                if i < block_id {
                    assert(self.blocks@[i].block_type == before.blocks@[i].block_type);
                    if let BlockType::Section(s) = before.blocks@[i].block_type {
                        assert(before.sections@[s as int] == self.sections@[s as int]);
                    }
                }
            }
            assert forall|i: int| 0 <= i < self.blocks@.len() implies self.type_refs_ok(#[trigger] self.blocks@[i].block_type, true) by {
                if i < block_id {
                    assert(self.blocks@[i].block_type == before.blocks@[i].block_type);
                    assert(before.type_refs_ok(before.blocks@[i].block_type, true));
                }
            }
        }
        (added, section_id)
    }
}

/// Adding a block that names an earlier block (or none) as parent, and has
/// no children yet, keeps the tree shape.
pub proof fn lemma_add_block_tree(old_db: Database, new_db: Database, block: Block, id: BlockId)
    requires
        old_db.tree_wf(),
        block.parent_id matches Some(p) ==> p < old_db.blocks@.len(),
        block.children@.len() == 0,
        id == old_db.blocks@.len(),
        new_db.blocks@.len() == old_db.blocks@.len() + 1,
        new_db.blocks@[id as int] == block,
        forall|i: int|
            0 <= i < old_db.blocks@.len() && block.parent_id != Some(i as BlockId) ==> new_db.blocks@[i] == old_db.blocks@[i],
        block.parent_id matches Some(p) ==> {
            &&& new_db.blocks@[p as int].children@ == old_db.blocks@[p as int].children@.push(id)
            &&& new_db.blocks@[p as int].block_type == old_db.blocks@[p as int].block_type
            &&& new_db.blocks@[p as int].parent_id == old_db.blocks@[p as int].parent_id
            &&& new_db.blocks@[p as int].level == old_db.blocks@[p as int].level
            &&& new_db.blocks@[p as int].line == old_db.blocks@[p as int].line
        },
    ensures
        new_db.tree_wf(),
        forall|i: int|
            0 <= i < old_db.blocks@.len() ==> (#[trigger] new_db.blocks@[i]).block_type == old_db.blocks@[i].block_type
                && new_db.blocks@[i].parent_id == old_db.blocks@[i].parent_id
                && new_db.blocks@[i].level == old_db.blocks@[i].level
                && new_db.blocks@[i].line == old_db.blocks@[i].line,
{
    let ob = old_db.blocks@;
    let nb = new_db.blocks@;
    assert forall|i: int| 0 <= i < ob.len() implies (#[trigger] nb[i]).block_type == ob[i].block_type
        && nb[i].parent_id == ob[i].parent_id && nb[i].level == ob[i].level && nb[i].line == ob[i].line by {
        if block.parent_id != Some(i as BlockId) {
            assert(nb[i] == ob[i]);
        }
    }
    assert forall|c: int| 0 <= c < nb.len() implies ((#[trigger] nb[c]).parent_id matches Some(p) ==> p < c
        && nb[p as int].children@.contains(c as BlockId)) by {
        if c == id {
            if let Some(p) = block.parent_id {
                assert(nb[p as int].children@[ob[p as int].children@.len() as int] == id);
            }
        } else {
            assert(nb[c].parent_id == ob[c].parent_id);
            assert(ob[c] == ob[c]);
            if let Some(q) = ob[c].parent_id {
                assert(q < c);
                assert(ob[q as int].children@.contains(c as BlockId));
                if block.parent_id == Some(q) {
                    let k = choose|k: int| 0 <= k < ob[q as int].children@.len() && ob[q as int].children@[k] == c as BlockId;
                    assert(nb[q as int].children@[k] == c as BlockId);
                } else {
                    assert(nb[q as int] == ob[q as int]);
                }
            }
        }
    }
    assert forall|i: int, k: int| 0 <= i < nb.len() && 0 <= k < nb[i].children@.len() implies {
        let c = #[trigger] nb[i].children@[k];
        &&& i < c < nb.len()
        &&& nb[c as int].parent_id == Some(i as BlockId)
    } by {
        if i == id {
            assert(nb[i].children@.len() == 0);
        } else if block.parent_id == Some(i as BlockId) && k == ob[i].children@.len() {
            assert(nb[i].children@[k] == id);
        } else {
            if block.parent_id == Some(i as BlockId) {
                assert(nb[i].children@[k] == ob[i].children@[k]);
            } else {
                assert(nb[i] == ob[i]);
            }
            let c = ob[i].children@[k];
            assert(i < c < ob.len());
            assert(nb[c as int].parent_id == ob[c as int].parent_id);
        }
    }
}

/// Adding a block keeps the database consistent when what the block refers
/// to exists (it may not be a section block: see
/// [`Database::add_section_block`]).
pub proof fn lemma_add_block_wf(old_db: Database, new_db: Database, block: Block, id: BlockId, pending: bool)
    requires
        old_db.wf_with(pending),
        block.parent_id matches Some(p) ==> p < old_db.blocks@.len(),
        block.children@.len() == 0,
        !(block.block_type is Section),
        old_db.type_refs_ok(block.block_type, pending),
        id == old_db.blocks@.len(),
        new_db.blocks@.len() == old_db.blocks@.len() + 1,
        new_db.blocks@[id as int] == block,
        forall|i: int|
            0 <= i < old_db.blocks@.len() && block.parent_id != Some(i as BlockId) ==> new_db.blocks@[i] == old_db.blocks@[i],
        block.parent_id matches Some(p) ==> {
            &&& new_db.blocks@[p as int].children@ == old_db.blocks@[p as int].children@.push(id)
            &&& new_db.blocks@[p as int].block_type == old_db.blocks@[p as int].block_type
            &&& new_db.blocks@[p as int].parent_id == old_db.blocks@[p as int].parent_id
            &&& new_db.blocks@[p as int].level == old_db.blocks@[p as int].level
            &&& new_db.blocks@[p as int].line == old_db.blocks@[p as int].line
        },
        new_db.strings == old_db.strings,
        new_db.sections == old_db.sections,
        new_db.variables == old_db.variables,
    ensures
        new_db.wf_with(pending),
        forall|i: int|
            0 <= i < old_db.blocks@.len() ==> (#[trigger] new_db.blocks@[i]).block_type == old_db.blocks@[i].block_type
                && new_db.blocks@[i].parent_id == old_db.blocks@[i].parent_id
                && new_db.blocks@[i].level == old_db.blocks@[i].level
                && new_db.blocks@[i].line == old_db.blocks@[i].line,
{
    lemma_add_block_tree(old_db, new_db, block, id);
    assert forall|s: int| 0 <= s < new_db.sections@.len() implies {
        let sec = #[trigger] new_db.sections@[s];
        &&& sec.block_id < new_db.blocks@.len()
        &&& new_db.blocks@[sec.block_id as int].block_type == BlockType::Section(s as SectionId)
        &&& sec.name < new_db.strings@.len()
        &&& sec.id < new_db.strings@.len()
        &&& sec.path < new_db.strings@.len()
        &&& sec.id_path < new_db.strings@.len()
    } by {
        assert(old_db.sections@[s] == new_db.sections@[s]);
    }
    assert forall|i: int| 0 <= i < new_db.blocks@.len() implies ((#[trigger] new_db.blocks@[i]).block_type matches BlockType::Section(s)
        ==> s < new_db.sections@.len() && new_db.sections@[s as int].block_id == i) by {
        if i < id {
            assert(new_db.blocks@[i].block_type == old_db.blocks@[i].block_type);
            assert(old_db.blocks@[i] == old_db.blocks@[i]);
        }
    }
    assert forall|i: int| 0 <= i < new_db.blocks@.len() implies new_db.type_refs_ok(#[trigger] new_db.blocks@[i].block_type, pending) by {
        if i < id {
            assert(new_db.blocks@[i].block_type == old_db.blocks@[i].block_type);
            assert(old_db.type_refs_ok(old_db.blocks@[i].block_type, pending));
        }
    }
}


/// Changing the type of a block that is not a section to another type that
/// is not a section, whose references exist, keeps the database consistent.
pub proof fn lemma_set_type_wf(old_db: Database, new_db: Database, id: BlockId, t: BlockType)
    requires
        old_db.wf_with(true),
        id < old_db.blocks@.len(),
        !(old_db.blocks@[id as int].block_type is Section),
        !(t is Section),
        old_db.type_refs_ok(t, true),
        new_db.blocks@.len() == old_db.blocks@.len(),
        new_db.blocks@[id as int].block_type == t,
        new_db.blocks@[id as int].parent_id == old_db.blocks@[id as int].parent_id,
        new_db.blocks@[id as int].children@ == old_db.blocks@[id as int].children@,
        forall|i: int| 0 <= i < old_db.blocks@.len() && i != id ==> new_db.blocks@[i] == old_db.blocks@[i],
        new_db.strings == old_db.strings,
        new_db.sections == old_db.sections,
        new_db.variables == old_db.variables,
    ensures
        new_db.wf_with(true),
{
    let ob = old_db.blocks@;
    let nb = new_db.blocks@;
    assert forall|c: int| 0 <= c < nb.len() implies ((#[trigger] nb[c]).parent_id matches Some(p) ==> p < c
        && nb[p as int].children@.contains(c as BlockId)) by {
        assert(ob[c] == ob[c]);
        if let Some(p) = ob[c].parent_id {
            if p != id {
                assert(nb[p as int] == ob[p as int]);
            }
        }
    }
    assert forall|i: int, k: int| 0 <= i < nb.len() && 0 <= k < nb[i].children@.len() implies {
        let c = #[trigger] nb[i].children@[k];
        &&& i < c < nb.len()
        &&& nb[c as int].parent_id == Some(i as BlockId)
    } by {
        if i != id {
            assert(nb[i] == ob[i]);
        }
        let c = ob[i].children@[k];
        assert(i < c < ob.len());
        if c != id {
            assert(nb[c as int] == ob[c as int]);
        }
    }
    assert forall|s: int| 0 <= s < new_db.sections@.len() implies {
        let sec = #[trigger] new_db.sections@[s];
        &&& sec.block_id < new_db.blocks@.len()
        &&& new_db.blocks@[sec.block_id as int].block_type == BlockType::Section(s as SectionId)
        &&& sec.name < new_db.strings@.len()
        &&& sec.id < new_db.strings@.len()
        &&& sec.path < new_db.strings@.len()
        &&& sec.id_path < new_db.strings@.len()
    } by {
        let sec = old_db.sections@[s];
        assert(ob[sec.block_id as int].block_type == BlockType::Section(s as SectionId));
        if sec.block_id != id {
            assert(nb[sec.block_id as int] == ob[sec.block_id as int]);
        }
    }
    assert forall|i: int| 0 <= i < nb.len() implies ((#[trigger] nb[i]).block_type matches BlockType::Section(s)
        ==> s < new_db.sections@.len() && new_db.sections@[s as int].block_id == i) by {
        if i != id {
            assert(nb[i] == ob[i]);
            assert(ob[i] == ob[i]);
        }
    }
    assert forall|i: int| 0 <= i < nb.len() implies new_db.type_refs_ok(#[trigger] nb[i].block_type, true) by {
        if i != id {
            assert(nb[i] == ob[i]);
            assert(old_db.type_refs_ok(ob[i].block_type, true));
        }
    }
}

} // verus!
