use vstd::prelude::*;
use vstd::string::StringExecFns;

verus! {

/// The name, without extension, of the file that holds the prover's inputs.
pub const PROVER_INPUT_FILE: &'static str = "Prover";

/// The name, without extension, of the file that holds the verifier's
/// inputs.
pub const VERIFIER_INPUT_FILE: &'static str = "Verifier";

#[derive(Copy, Clone, Debug, PartialEq, Eq, Structural)]
pub enum CrateType {
    Library,
    Binary,
}

impl CrateType {
    /// The word that a manifest writes for the type: `lib` or `bin`.
    pub open spec fn spec_name(self) -> Seq<char> {
        match self {
            CrateType::Library => "lib"@,
            CrateType::Binary => "bin"@,
        }
    }

    /// The word that a manifest writes for the type: `lib` or `bin`.
    pub fn name(&self) -> (name: String)
        ensures
            name@ == self.spec_name(),
    {
        match self {
            CrateType::Library => String::from_str("lib"),
            CrateType::Binary => String::from_str("bin"),
        }
    }
}

/// A package that another package depends on.
pub enum Dependency {
    Local { package: Package },
    Remote { package: Package },
}

/// A path in the file system, one entry for each of its components.
pub type PathComponents = Vec<String>;

/// A package: where it lies, what kind of crate it is and what it depends
/// on.
pub struct Package {
    pub root_dir: PathComponents,
    pub crate_type: CrateType,
    pub entry_path: PathComponents,
    pub name: String,
    /// The dependencies, each under the name it is imported by.
    pub dependencies: Vec<(String, Dependency)>,
}

/// The components of a path as sequences of characters.
pub open spec fn view_path(components: Seq<String>) -> Seq<Seq<char>> {
    Seq::new(components.len(), |i: int| components[i]@)
}

/// The mathematical value of a [`Dependency`].
pub enum DependencyView {
    Local { package: Box<PackageView> },
    Remote { package: Box<PackageView> },
}

/// The mathematical value of a [`Package`].
pub struct PackageView {
    pub root_dir: Seq<Seq<char>>,
    pub crate_type: CrateType,
    pub entry_path: Seq<Seq<char>>,
    pub name: Seq<char>,
    pub dependencies: Seq<(Seq<char>, DependencyView)>,
}

impl PackageView {
    /// Whether no two dependencies are imported by the same name: the
    /// dependencies are a map from names.
    pub open spec fn distinct_dependencies(self) -> bool {
        forall|i: int, j: int|
            0 <= i < j < self.dependencies.len() ==> (#[trigger] self.dependencies[i]).0 != (
            #[trigger] self.dependencies[j]).0
    }
}

impl Dependency {
    /// The dependency with its package replaced by the value of the package.
    pub open spec fn to_view(&self) -> DependencyView
        decreases self,
    {
        match self {
            Dependency::Local { package } => DependencyView::Local {
                package: Box::new(package.to_view()),
            },
            Dependency::Remote { package } => DependencyView::Remote {
                package: Box::new(package.to_view()),
            },
        }
    }
}

impl Package {
    /// The package with every string and list replaced by its value.
    pub open spec fn to_view(&self) -> PackageView
        decreases self,
    {
        PackageView {
            root_dir: view_path(self.root_dir@),
            crate_type: self.crate_type,
            entry_path: view_path(self.entry_path@),
            name: self.name@,
            dependencies: Seq::new(
                self.dependencies@.len(),
                |i: int|
                    if 0 <= i < self.dependencies@.len() {
                        (self.dependencies@[i].0@, self.dependencies@[i].1.to_view())
                    } else {
                        (
                            self.name@,
                            DependencyView::Local {
                                package: Box::new(
                                    PackageView {
                                        root_dir: Seq::empty(),
                                        crate_type: self.crate_type,
                                        entry_path: Seq::empty(),
                                        name: self.name@,
                                        dependencies: Seq::empty(),
                                    },
                                ),
                            },
                        )
                    },
            ),
        }
    }
}

impl View for Dependency {
    type V = DependencyView;

    open spec fn view(&self) -> DependencyView {
        self.to_view()
    }
}

impl View for Package {
    type V = PackageView;

    open spec fn view(&self) -> PackageView {
        self.to_view()
    }
}

/// The values of a list of dependencies, each with its name.
pub open spec fn view_dependencies(dependencies: Seq<(String, Dependency)>) -> Seq<
    (Seq<char>, DependencyView),
> {
    Seq::new(dependencies.len(), |i: int| (dependencies[i].0@, dependencies[i].1@))
}

/// The view of a package lists the views of its dependencies.
pub proof fn lemma_view_package(package: Package)
    ensures
        package@.dependencies == view_dependencies(package.dependencies@),
{
    reveal_with_fuel(Package::to_view, 2);
    assert(package@.dependencies =~= view_dependencies(package.dependencies@));
}

/// Copies a path component by component.
fn duplicate_path(path: &PathComponents) -> (copy: PathComponents)
    ensures
        view_path(copy@) == view_path(path@),
{
    let mut copy: Vec<String> = Vec::new();
    let mut i: usize = 0;
    while i < path.len()
        invariant
            i <= path.len(),
            copy.len() == i,
            forall|j: int| 0 <= j < i ==> copy[j]@ == path[j]@,
        decreases path.len() - i,
    {
        copy.push(path[i].clone());
        i += 1;
    }
    assert(view_path(copy@) =~= view_path(path@));
    copy
}

/// The name of an input file: the given name with the extension `toml`.
pub open spec fn input_file(name: Seq<char>) -> Seq<char> {
    name + ".toml"@
}

impl Clone for Dependency {
    fn clone(&self) -> (copy: Dependency)
        ensures
            copy@ == self@,
    {
        self.duplicate()
    }
}

impl Clone for Package {
    fn clone(&self) -> (copy: Package)
        ensures
            copy@ == self@,
    {
        self.duplicate()
    }
}

impl Dependency {
    /// A deep copy.
    pub fn duplicate(&self) -> (copy: Dependency)
        ensures
            copy@ == self@,
        decreases self,
    {
        match self {
            Dependency::Local { package } => Dependency::Local { package: package.duplicate() },
            Dependency::Remote { package } => Dependency::Remote { package: package.duplicate() },
        }
    }

    /// The package that is depended on.
    pub open spec fn package(&self) -> Package {
        match self {
            Dependency::Local { package } => *package,
            Dependency::Remote { package } => *package,
        }
    }

    pub fn is_binary_crate(&self) -> (binary: bool)
        ensures
            binary == (self.package().crate_type == CrateType::Binary),
    {
        match self {
            Dependency::Local { package } | Dependency::Remote { package } => {
                package.crate_type == CrateType::Binary
            },
        }
    }

    pub fn package_name(&self) -> (name: String)
        ensures
            name@ == self.package().name@,
    {
        match self {
            Dependency::Local { package } | Dependency::Remote { package } => package.name.clone(),
        }
    }
}

impl Package {
    /// A deep copy.
    pub fn duplicate(&self) -> (copy: Package)
        ensures
            copy@ == self@,
        decreases self,
    {
        let mut dependencies: Vec<(String, Dependency)> = Vec::new();
        let mut i: usize = 0;
        while i < self.dependencies.len()
            invariant
                i <= self.dependencies.len(),
                dependencies.len() == i,
                forall|j: int|
                    0 <= j < i ==> (#[trigger] dependencies[j]).0@ == self.dependencies[j].0@
                        && dependencies[j].1@ == self.dependencies[j].1@,
                decreases_to!(self => self.dependencies),
            decreases self.dependencies.len() - i,
        {
            assert(decreases_to!(self.dependencies => self.dependencies[i as int]));
            assert(decreases_to!(self.dependencies[i as int] => self.dependencies[i as int].1));
            let name = self.dependencies[i].0.clone();
            let dependency = self.dependencies[i].1.duplicate();
            dependencies.push((name, dependency));
            i += 1;
        }
        let copy = Package {
            root_dir: duplicate_path(&self.root_dir),
            crate_type: self.crate_type,
            entry_path: duplicate_path(&self.entry_path),
            name: self.name.clone(),
            dependencies,
        };
        proof {
            lemma_view_package(*self);
            lemma_view_package(copy);
            assert(view_dependencies(copy.dependencies@) =~= view_dependencies(
                self.dependencies@,
            ));
        }
        copy
    }

    /// The path of `file` directly under the package's root directory.
    fn path_in_root(&self, file: String) -> (path: PathComponents)
        ensures
            view_path(path@) == view_path(self.root_dir@).push(file@),
    {
        let mut path = duplicate_path(&self.root_dir);
        path.push(file);
        assert(view_path(path@) =~= view_path(self.root_dir@).push(file@));
        path
    }

    /// The path of the file that holds the prover's inputs: `Prover.toml` in
    /// the root directory.
    pub fn prover_input_path(&self) -> (path: PathComponents)
        ensures
            view_path(path@) == view_path(self.root_dir@).push(input_file(PROVER_INPUT_FILE@)),
    {
        self.path_in_root(String::from_str(PROVER_INPUT_FILE).concat(".toml"))
    }

    /// The path of the file that holds the verifier's inputs: `Verifier.toml`
    /// in the root directory.
    pub fn verifier_input_path(&self) -> (path: PathComponents)
        ensures
            view_path(path@) == view_path(self.root_dir@).push(input_file(VERIFIER_INPUT_FILE@)),
    {
        self.path_in_root(String::from_str(VERIFIER_INPUT_FILE).concat(".toml"))
    }
}

} // verus!
