use vstd::prelude::*;

verus! {

/// A stretch of source text.
#[derive(Copy, Clone, Debug, PartialEq, Eq, Hash, Structural)]
pub struct Span {
    pub start: u32,
    pub end: u32,
}

/// A name as it stands in the source text. Two identifiers are the same name
/// if they are spelled alike, wherever they stand.
#[derive(Debug)]
pub struct Ident {
    pub name: String,
    pub span: Span,
}

/// The mathematical value of an [`Ident`].
pub struct IdentView {
    pub name: Seq<char>,
    pub span: Span,
}

impl View for Ident {
    type V = IdentView;

    open spec fn view(&self) -> IdentView {
        IdentView { name: self.name@, span: self.span }
    }
}

impl Ident {
    /// A copy of the identifier.
    pub fn duplicate(&self) -> (copy: Ident)
        ensures
            copy@ == self@,
    {
        Ident { name: self.name.clone(), span: self.span }
    }

    /// Whether two identifiers are spelled alike.
    pub fn same_name(&self, other: &Ident) -> (same: bool)
        ensures
            same == (self@.name == other@.name),
    {
        self.name == other.name
    }
}

#[derive(Copy, Clone, Debug, PartialEq, Eq, Hash, Structural)]
pub struct CrateId(pub usize);

#[derive(Copy, Clone, Debug, PartialEq, Eq, Hash, Structural)]
pub struct LocalModuleId(pub usize);

/// A module: the crate it belongs to and its number within that crate.
#[derive(Copy, Clone, Debug, PartialEq, Eq, Hash, Structural)]
pub struct ModuleId {
    pub krate: CrateId,
    pub local_id: LocalModuleId,
}

#[derive(Copy, Clone, Debug, PartialEq, Eq, Hash, Structural)]
pub struct FuncId(pub usize);

#[derive(Copy, Clone, Debug, PartialEq, Eq, Hash, Structural)]
pub struct StructId(pub ModuleId);

#[derive(Copy, Clone, Debug, PartialEq, Eq, Hash, Structural)]
pub struct StmtId(pub usize);

/// The identity of a definition in the [`NodeInterner`].
#[derive(Copy, Clone, Debug, PartialEq, Eq, Hash, Structural)]
pub struct DefinitionId(pub usize);

/// What a definition defines.
#[derive(Copy, Clone, Debug, PartialEq, Eq, Hash, Structural)]
pub enum Definition {
    Function(FuncId),
    Global(StmtId),
    Local,
}

/// What is known of a definition.
#[derive(Debug)]
pub struct DefinitionInfo {
    pub name: String,
    pub mutable: bool,
    pub definition: Definition,
}

/// The table of definitions.
#[derive(Debug)]
pub struct NodeInterner {
    pub definitions: Vec<DefinitionInfo>,
}

impl NodeInterner {
    /// A table without definitions.
    pub fn new() -> (interner: NodeInterner)
        ensures
            interner.definitions@.len() == 0,
    {
        NodeInterner { definitions: Vec::new() }
    }

    /// Whether `id` names a definition of this table.
    pub open spec fn has_definition(&self, id: DefinitionId) -> bool {
        id.0 < self.definitions@.len()
    }

    /// What the definition `id` defines.
    pub open spec fn defined(&self, id: DefinitionId) -> Definition {
        self.definitions@[id.0 as int].definition
    }

    /// Adds the definition of a function under the given name and returns
    /// its identity.
    pub fn push_function_definition(&mut self, name: String, func: FuncId) -> (id: DefinitionId)
        ensures
            id.0 == old(self).definitions@.len(),
            final(self).definitions@ == old(self).definitions@.push(
                DefinitionInfo { name, mutable: false, definition: Definition::Function(func) },
            ),
            final(self).has_definition(id),
            final(self).defined(id) == Definition::Function(func),
            forall|other: DefinitionId|
                old(self).has_definition(other) ==> final(self).has_definition(other)
                    && final(self).defined(other) == old(self).defined(other),
    {
        let id = DefinitionId(self.definitions.len());
        self.definitions.push(
            DefinitionInfo { name, mutable: false, definition: Definition::Function(func) },
        );
        id
    }

    pub fn definition(&self, id: DefinitionId) -> (info: &DefinitionInfo)
        requires
            self.has_definition(id),
        ensures
            *info == self.definitions@[id.0 as int],
            info.definition == self.defined(id),
    {
        &self.definitions[id.0]
    }
}

/// What a name of a module can stand for.
#[derive(Copy, Clone, Debug, PartialEq, Eq, Hash, Structural)]
pub enum ModuleDefId {
    ModuleId(ModuleId),
    VariableId(DefinitionId),
    TypeId(StructId),
    GlobalId(StmtId),
}

impl ModuleDefId {
    /// Whether the item is named in the namespace of types, where modules
    /// and structs are, and not in that of values, where variables and
    /// globals are.
    pub open spec fn is_type(self) -> bool {
        self is ModuleId || self is TypeId
    }
}

#[derive(Debug, PartialEq, Eq, Copy, Clone, Structural)]
pub enum Visibility {
    Public,
}

/// One name of a namespace and what it stands for.
#[derive(Debug)]
pub struct Entry {
    pub name: Ident,
    pub item: ModuleDefId,
    pub visibility: Visibility,
}

/// The mathematical value of an [`Entry`].
pub struct EntryView {
    pub name: IdentView,
    pub item: ModuleDefId,
    pub visibility: Visibility,
}

impl View for Entry {
    type V = EntryView;

    open spec fn view(&self) -> EntryView {
        EntryView { name: self.name@, item: self.item, visibility: self.visibility }
    }
}

/// The values of a sequence of entries, in order.
pub open spec fn view_entries(entries: Seq<Entry>) -> Seq<EntryView> {
    Seq::new(entries.len(), |i: int| entries[i]@)
}

/// The entry of a namespace under the given name, if there is one.
pub open spec fn lookup(entries: Seq<EntryView>, name: Seq<char>) -> Option<EntryView>
    decreases entries.len(),
{
    if entries.len() == 0 {
        None
    } else if entries.last().name.name == name {
        Some(entries.last())
    } else {
        lookup(entries.drop_last(), name)
    }
}

/// Whether no name occurs twice in a namespace.
pub open spec fn distinct_names(entries: Seq<EntryView>) -> bool {
    forall|i: int, j: int|
        0 <= i < j < entries.len() ==> (#[trigger] entries[i]).name.name != (
        #[trigger] entries[j]).name.name
}

/// A name that is looked up and found stands at some place of the
/// namespace; one that is not found stands at none.
pub proof fn lemma_lookup(entries: Seq<EntryView>, name: Seq<char>)
    ensures
        match lookup(entries, name) {
            Some(entry) => entries.contains(entry) && entry.name.name == name,
            None => forall|i: int|
                0 <= i < entries.len() ==> (#[trigger] entries[i]).name.name != name,
        },
    decreases entries.len(),
{
    if entries.len() > 0 {
        lemma_lookup(entries.drop_last(), name);
        if entries.last().name.name != name {
            match lookup(entries.drop_last(), name) {
                Some(entry) => {
                    let i = choose|i: int|
                        0 <= i < entries.drop_last().len() && entries.drop_last()[i] == entry;
                    assert(entries[i] == entry);
                },
                None => {
                    assert forall|i: int| 0 <= i < entries.len() implies (
                    #[trigger] entries[i]).name.name != name by {
                        if i < entries.len() - 1 {
                            assert(entries.drop_last()[i] == entries[i]);
                        }
                    }
                },
            }
        } else {
            assert(entries[entries.len() - 1] == entries.last());
        }
    }
}

/// Looking up a name that has just been added under a new name finds what
/// was added, and every other name is found as before.
pub proof fn lemma_lookup_after_push(entries: Seq<EntryView>, added: EntryView, name: Seq<char>)
    ensures
        lookup(entries.push(added), added.name.name) == Some(added),
        name != added.name.name ==> lookup(entries.push(added), name) == lookup(entries, name),
{
    assert(entries.push(added).drop_last() =~= entries);
}

/// The names that a module defines: a namespace of types, a namespace of
/// values, and the defined items in the order of their definition.
#[derive(Debug)]
pub struct ItemScope {
    pub types: Vec<Entry>,
    pub values: Vec<Entry>,
    pub defs: Vec<ModuleDefId>,
}

/// The mathematical value of an [`ItemScope`].
pub struct ItemScopeView {
    pub types: Seq<EntryView>,
    pub values: Seq<EntryView>,
    pub defs: Seq<ModuleDefId>,
}

/// What a name stands for in each of the two namespaces.
#[derive(Debug, PartialEq, Eq, Copy, Clone)]
pub struct PerNs {
    pub types: Option<(ModuleDefId, Visibility)>,
    pub values: Option<(ModuleDefId, Visibility)>,
}

/// What an entry, if there is one, says its name stands for.
pub open spec fn item_of(entry: Option<EntryView>) -> Option<(ModuleDefId, Visibility)> {
    match entry {
        Some(entry) => Some((entry.item, entry.visibility)),
        None => None,
    }
}

impl ItemScopeView {
    /// The scope that defines nothing.
    pub open spec fn empty() -> ItemScopeView {
        ItemScopeView { types: Seq::empty(), values: Seq::empty(), defs: Seq::empty() }
    }

    /// No name occurs twice in either namespace.
    pub open spec fn wf(self) -> bool {
        distinct_names(self.types) && distinct_names(self.values)
    }

    /// The namespace that an item of the given kind is named in.
    pub open spec fn namespace(self, item: ModuleDefId) -> Seq<EntryView> {
        if item.is_type() {
            self.types
        } else {
            self.values
        }
    }

    /// The scope with one more name in the namespace of the item's kind.
    pub open spec fn with_item(self, name: IdentView, item: ModuleDefId) -> ItemScopeView {
        let entry = EntryView { name, item, visibility: Visibility::Public };
        if item.is_type() {
            ItemScopeView { types: self.types.push(entry), ..self }
        } else {
            ItemScopeView { values: self.values.push(entry), ..self }
        }
    }

    /// The result of naming an item: the scope with the item added, or, if
    /// the namespace has the name already, the identifier that it has it
    /// under.
    pub open spec fn add_item(self, name: IdentView, item: ModuleDefId) -> Result<
        ItemScopeView,
        IdentView,
    > {
        match lookup(self.namespace(item), name.name) {
            Some(existing) => Err(existing.name),
            None => Ok(self.with_item(name, item)),
        }
    }

    /// The result of defining an item: it is named as by [`Self::add_item`]
    /// and then listed among the definitions.
    pub open spec fn add_definition(self, name: IdentView, item: ModuleDefId) -> Result<
        ItemScopeView,
        IdentView,
    > {
        match self.add_item(name, item) {
            Ok(added) => Ok(ItemScopeView { defs: added.defs.push(item), ..added }),
            Err(existing) => Err(existing),
        }
    }

    /// The module that a name stands for, if it stands for a module.
    pub open spec fn module_with_name(self, name: Seq<char>) -> Option<ModuleId> {
        match lookup(self.types, name) {
            Some(entry) => match entry.item {
                ModuleDefId::ModuleId(id) => Some(id),
                _ => None,
            },
            None => None,
        }
    }

    /// The definition that a name of the namespace of values stands for, if
    /// it stands for a variable.
    pub open spec fn variable_with_name(self, name: Seq<char>) -> Option<DefinitionId> {
        match lookup(self.values, name) {
            Some(entry) => match entry.item {
                ModuleDefId::VariableId(id) => Some(id),
                _ => None,
            },
            None => None,
        }
    }

    /// What a name stands for in each of the two namespaces.
    pub open spec fn find_name(self, name: Seq<char>) -> PerNs {
        PerNs {
            types: item_of(lookup(self.types, name)),
            values: item_of(lookup(self.values, name)),
        }
    }
}

impl View for ItemScope {
    type V = ItemScopeView;

    open spec fn view(&self) -> ItemScopeView {
        ItemScopeView {
            types: view_entries(self.types@),
            values: view_entries(self.values@),
            defs: self.defs@,
        }
    }
}

/// Adding a name to a namespace that does not have it keeps the names
/// distinct.
pub proof fn lemma_push_keeps_distinct(entries: Seq<EntryView>, added: EntryView)
    requires
        distinct_names(entries),
        lookup(entries, added.name.name) is None,
    ensures
        distinct_names(entries.push(added)),
{
    lemma_lookup(entries, added.name.name);
    let extended = entries.push(added);
    assert forall|i: int, j: int| 0 <= i < j < extended.len() implies (
    #[trigger] extended[i]).name.name != (#[trigger] extended[j]).name.name by {
        assert(extended[i] == entries[i]);
        if j < entries.len() {
            assert(extended[j] == entries[j]);
        }
    }
}

/// A name that was defined is found, with the item it was defined as, and
/// defining it again fails with the identifier of the first definition.
pub proof fn lemma_define_then_find(scope: ItemScopeView, name: IdentView, item: ModuleDefId)
    requires
        scope.wf(),
        scope.add_definition(name, item) is Ok,
    ensures
        scope.add_definition(name, item)->Ok_0.wf(),
        lookup(scope.add_definition(name, item)->Ok_0.namespace(item), name.name) == Some(
            EntryView { name, item, visibility: Visibility::Public },
        ),
        scope.add_definition(name, item)->Ok_0.add_definition(name, item) == Err::<
            ItemScopeView,
            IdentView,
        >(name),
{
    let entry = EntryView { name, item, visibility: Visibility::Public };
    lemma_lookup_after_push(scope.namespace(item), entry, name.name);
    lemma_push_keeps_distinct(scope.namespace(item), entry);
}

/// Searches a namespace for a name. Returns the place of its entry.
fn find_entry(entries: &Vec<Entry>, name: &Ident) -> (found: Option<usize>)
    ensures
        match found {
            Some(i) => i < entries.len() && lookup(view_entries(entries@), name@.name) == Some(
                entries[i as int]@,
            ),
            None => lookup(view_entries(entries@), name@.name) is None,
        },
{
    let ghost views = view_entries(entries@);
    let mut i: usize = entries.len();
    assert(views.take(i as int) =~= views);
    while i > 0
        invariant
            i <= entries.len(),
            views == view_entries(entries@),
            lookup(views, name@.name) == lookup(views.take(i as int), name@.name),
        decreases i,
    {
        i -= 1;
        proof {
            assert(views.take(i + 1).drop_last() =~= views.take(i as int));
            assert(views.take(i + 1).last() == entries[i as int]@);
        }
        if entries[i].name.same_name(name) {
            return Some(i);
        }
    }
    assert(views.take(0) =~= Seq::empty());
    None
}

impl ItemScope {
    /// The scope that defines nothing.
    pub fn new() -> (scope: ItemScope)
        ensures
            scope@ == ItemScopeView::empty(),
            scope@.wf(),
    {
        let scope = ItemScope { types: Vec::new(), values: Vec::new(), defs: Vec::new() };
        assert(scope@.types =~= Seq::empty());
        assert(scope@.values =~= Seq::empty());
        scope
    }

    /// Names an item and lists it among the definitions. Fails, and changes
    /// nothing, if the namespace of the item's kind has the name already;
    /// the error holds the identifier of the earlier definition, then the
    /// one of this.
    pub fn add_definition(&mut self, name: Ident, mod_def: ModuleDefId) -> (result: Result<
        (),
        (Ident, Ident),
    >)
        requires
            old(self)@.wf(),
        ensures
            final(self)@.wf(),
            match result {
                Ok(_) => old(self)@.add_definition(name@, mod_def) == Ok::<
                    ItemScopeView,
                    IdentView,
                >(final(self)@),
                Err((old_ident, new_ident)) => {
                    &&& old(self)@.add_definition(name@, mod_def) == Err::<
                        ItemScopeView,
                        IdentView,
                    >(old_ident@)
                    &&& new_ident@ == name@
                    &&& final(self)@ == old(self)@
                },
            },
    {
        self.add_item_to_namespace(name, mod_def)?;
        self.defs.push(mod_def);
        Ok(())
    }

    /// Names an item in the namespace of its kind. Fails, and changes
    /// nothing, if the namespace has an item of exactly that name already;
    /// the error holds the identifier of the earlier item, then the one of
    /// this.
    pub fn add_item_to_namespace(&mut self, name: Ident, mod_def: ModuleDefId) -> (result: Result<
        (),
        (Ident, Ident),
    >)
        requires
            old(self)@.wf(),
        ensures
            final(self)@.wf(),
            match result {
                Ok(_) => old(self)@.add_item(name@, mod_def) == Ok::<ItemScopeView, IdentView>(
                    final(self)@,
                ),
                Err((old_ident, new_ident)) => {
                    &&& old(self)@.add_item(name@, mod_def) == Err::<ItemScopeView, IdentView>(
                        old_ident@,
                    )
                    &&& new_ident@ == name@
                    &&& final(self)@ == old(self)@
                },
            },
    {
        let ghost entry = EntryView { name: name@, item: mod_def, visibility: Visibility::Public };
        match mod_def {
            ModuleDefId::ModuleId(_) | ModuleDefId::TypeId(_) => {
                match find_entry(&self.types, &name) {
                    Some(i) => {
                        let old_ident = self.types[i].name.duplicate();
                        Err((old_ident, name))
                    },
                    None => {
                        proof {
                            lemma_push_keeps_distinct(self@.types, entry);
                        }
                        self.types.push(
                            Entry { name, item: mod_def, visibility: Visibility::Public },
                        );
                        assert(final(self)@.types =~= old(self)@.types.push(entry));
                        Ok(())
                    },
                }
            },
            ModuleDefId::VariableId(_) | ModuleDefId::GlobalId(_) => {
                match find_entry(&self.values, &name) {
                    Some(i) => {
                        let old_ident = self.values[i].name.duplicate();
                        Err((old_ident, name))
                    },
                    None => {
                        proof {
                            lemma_push_keeps_distinct(self@.values, entry);
                        }
                        self.values.push(
                            Entry { name, item: mod_def, visibility: Visibility::Public },
                        );
                        assert(final(self)@.values =~= old(self)@.values.push(entry));
                        Ok(())
                    },
                }
            },
        }
    }

    /// Defines a module under the given name.
    pub fn define_module_def(&mut self, name: Ident, mod_id: ModuleId) -> (result: Result<
        (),
        (Ident, Ident),
    >)
        requires
            old(self)@.wf(),
        ensures
            final(self)@.wf(),
            match result {
                Ok(_) => old(self)@.add_definition(name@, ModuleDefId::ModuleId(mod_id)) == Ok::<
                    ItemScopeView,
                    IdentView,
                >(final(self)@),
                Err((old_ident, new_ident)) => {
                    &&& old(self)@.add_definition(name@, ModuleDefId::ModuleId(mod_id)) == Err::<
                        ItemScopeView,
                        IdentView,
                    >(old_ident@)
                    &&& new_ident@ == name@
                    &&& final(self)@ == old(self)@
                },
            },
    {
        self.add_definition(name, ModuleDefId::ModuleId(mod_id))
    }

    /// Defines a function under the given name: the function is entered in
    /// the table of definitions, whether or not the name is free, and the
    /// name is then defined as the variable that stands for it.
    pub fn define_func_def(
        &mut self,
        name: Ident,
        local_id: FuncId,
        interner: &mut NodeInterner,
    ) -> (result: Result<(), (Ident, Ident)>)
        requires
            old(self)@.wf(),
        ensures
            final(self)@.wf(),
            final(interner).definitions@ == old(interner).definitions@.push(
                DefinitionInfo {
                    name: name.name,
                    mutable: false,
                    definition: Definition::Function(local_id),
                },
            ),
            match result {
                Ok(_) => old(self)@.add_definition(
                    name@,
                    ModuleDefId::VariableId(
                        DefinitionId(old(interner).definitions@.len() as usize),
                    ),
                ) == Ok::<ItemScopeView, IdentView>(final(self)@),
                Err((old_ident, new_ident)) => {
                    &&& old(self)@.add_definition(
                        name@,
                        ModuleDefId::VariableId(
                            DefinitionId(old(interner).definitions@.len() as usize),
                        ),
                    ) == Err::<ItemScopeView, IdentView>(old_ident@)
                    &&& new_ident@ == name@
                    &&& final(self)@ == old(self)@
                },
            },
    {
        let id = interner.push_function_definition(name.name.clone(), local_id);
        self.add_definition(name, ModuleDefId::VariableId(id))
    }

    /// Defines a struct under the given name.
    pub fn define_struct_def(&mut self, name: Ident, local_id: StructId) -> (result: Result<
        (),
        (Ident, Ident),
    >)
        requires
            old(self)@.wf(),
        ensures
            final(self)@.wf(),
            match result {
                Ok(_) => old(self)@.add_definition(name@, ModuleDefId::TypeId(local_id)) == Ok::<
                    ItemScopeView,
                    IdentView,
                >(final(self)@),
                Err((old_ident, new_ident)) => {
                    &&& old(self)@.add_definition(name@, ModuleDefId::TypeId(local_id)) == Err::<
                        ItemScopeView,
                        IdentView,
                    >(old_ident@)
                    &&& new_ident@ == name@
                    &&& final(self)@ == old(self)@
                },
            },
    {
        self.add_definition(name, ModuleDefId::TypeId(local_id))
    }

    /// Defines a global under the given name.
    pub fn define_global(&mut self, name: Ident, stmt_id: StmtId) -> (result: Result<
        (),
        (Ident, Ident),
    >)
        requires
            old(self)@.wf(),
        ensures
            final(self)@.wf(),
            match result {
                Ok(_) => old(self)@.add_definition(name@, ModuleDefId::GlobalId(stmt_id)) == Ok::<
                    ItemScopeView,
                    IdentView,
                >(final(self)@),
                Err((old_ident, new_ident)) => {
                    &&& old(self)@.add_definition(name@, ModuleDefId::GlobalId(stmt_id)) == Err::<
                        ItemScopeView,
                        IdentView,
                    >(old_ident@)
                    &&& new_ident@ == name@
                    &&& final(self)@ == old(self)@
                },
            },
    {
        self.add_definition(name, ModuleDefId::GlobalId(stmt_id))
    }

    /// The module that the name stands for, if it stands for a module.
    pub fn find_module_with_name(&self, mod_name: &Ident) -> (module: Option<&ModuleId>)
        ensures
            match module {
                Some(id) => self@.module_with_name(mod_name@.name) == Some(*id),
                None => self@.module_with_name(mod_name@.name) is None,
            },
    {
        match find_entry(&self.types, mod_name) {
            Some(i) => match &self.types[i].item {
                ModuleDefId::ModuleId(id) => Some(id),
                _ => None,
            },
            None => None,
        }
    }

    /// The function that the name stands for, if it stands for a variable
    /// that the table of definitions knows as a function. Every variable of
    /// the scope is in the table.
    pub fn find_func_with_name(&self, func_name: &Ident, interner: &NodeInterner) -> (function:
        Option<FuncId>)
        requires
            self@.variable_with_name(func_name@.name) matches Some(id) ==> interner.has_definition(
                id,
            ),
        ensures
            function == match self@.variable_with_name(func_name@.name) {
                Some(id) => match interner.defined(id) {
                    Definition::Function(function) => Some(function),
                    _ => None,
                },
                None => None,
            },
    {
        match find_entry(&self.values, func_name) {
            Some(i) => match self.values[i].item {
                ModuleDefId::VariableId(id) => match interner.definition(id).definition {
                    Definition::Function(id) => Some(id),
                    _ => None,
                },
                _ => None,
            },
            None => None,
        }
    }

    /// What the name stands for in each of the two namespaces.
    pub fn find_name(&self, name: &Ident) -> (found: PerNs)
        ensures
            found == self@.find_name(name@.name),
    {
        let types = match find_entry(&self.types, name) {
            Some(i) => Some((self.types[i].item, self.types[i].visibility)),
            None => None,
        };
        let values = match find_entry(&self.values, name) {
            Some(i) => Some((self.values[i].item, self.values[i].visibility)),
            None => None,
        };
        PerNs { types, values }
    }

    /// The defined items, in the order of their definition.
    pub fn definitions(&self) -> (defs: Vec<ModuleDefId>)
        ensures
            defs@ == self@.defs,
    {
        let mut defs: Vec<ModuleDefId> = Vec::new();
        let mut i: usize = 0;
        while i < self.defs.len()
            invariant
                i <= self.defs.len(),
                defs@ == self.defs@.take(i as int),
            decreases self.defs.len() - i,
        {
            defs.push(self.defs[i]);
            assert(self.defs@.take(i + 1) =~= self.defs@.take(i as int).push(self.defs[i as int]));
            i += 1;
        }
        assert(self.defs@.take(i as int) =~= self.defs@);
        defs
    }

    /// The namespace of types.
    pub fn types(&self) -> (types: &Vec<Entry>)
        ensures
            view_entries(types@) == self@.types,
    {
        &self.types
    }

    /// The namespace of values.
    pub fn values(&self) -> (values: &Vec<Entry>)
        ensures
            view_entries(values@) == self@.values,
    {
        &self.values
    }
}

impl Default for ItemScope {
    fn default() -> (scope: ItemScope)
        ensures
            scope@ == ItemScopeView::empty(),
    {
        ItemScope::new()
    }
}

} // verus!
