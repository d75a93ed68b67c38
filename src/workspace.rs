use vstd::prelude::*;
use std::rc::Rc;

verus! {

/// The path that joining `name` onto `root` gives.
pub uninterp spec fn joined_path(root: Seq<char>, name: Seq<char>) -> Seq<char>;

/// Relies on `std::path::Path::join`: the result depends on the two parts
/// alone (with the target's separator). Both parts are UTF-8, so the lossy
/// conversion back to a string loses nothing.
#[verifier::external_body]
fn join_path(root: &str, name: &str) -> (r: String)
    ensures
        r@ == joined_path(root@, name@),
{
    std::path::Path::new(root).join(name).to_string_lossy().into_owned()
}

/// A workspace's configuration: the names of its projects.
#[derive(Debug)]
pub struct Config {
    pub projects: Vec<String>,
}

/// One project of a workspace, sharing the workspace's configuration.
#[derive(Debug)]
pub struct Project {
    pub name: String,
    pub path: String,
    pub config: Rc<Config>,
}

/// A root directory, its configuration and one project per configured name.
#[derive(Debug)]
pub struct Workspace {
    pub root_path: String,
    pub config: Rc<Config>,
    pub projects: Vec<Project>,
}

/// The configuration found under `root_path`.
pub fn parse_config(_root_path: &str) -> (r: Config)
    ensures
        r.projects@.len() == 2,
        r.projects@[0]@ == "foo"@,
        r.projects@[1]@ == "bar"@,
{
    let mut projects: Vec<String> = Vec::new();
    projects.push("foo".to_owned());
    projects.push("bar".to_owned());
    Config { projects }
}

impl Workspace {
    /// The workspace at `root_path`, with one project for each configured name,
    /// in the configuration's order.
    pub fn new(root_path: &str) -> (r: Workspace)
        ensures
            r.root_path@ == root_path@,
            r.config.projects@.len() == 2,
            r.config.projects@[0]@ == "foo"@,
            r.config.projects@[1]@ == "bar"@,
            r.projects@.len() == r.config.projects@.len(),
            forall|i: int|
                0 <= i < r.projects@.len() ==> {
                    &&& #[trigger] r.projects@[i].name@ == r.config.projects@[i]@
                    &&& r.projects@[i].path@ == joined_path(root_path@, r.config.projects@[i]@)
                    &&& *r.projects@[i].config == *r.config
                },
    {
        let config = Rc::new(parse_config(root_path));
        let mut res = Workspace {
            root_path: root_path.to_owned(),
            config: Rc::clone(&config),
            projects: Vec::new(),
        };
        let mut projects: Vec<Project> = Vec::new();
        let mut i: usize = 0;
        while i < config.projects.len()
            invariant
                res.root_path@ == root_path@,
                *res.config == *config,
                config.projects@.len() == 2,
                i <= config.projects@.len(),
                projects@.len() == i,
                forall|k: int|
                    0 <= k < i ==> {
                        &&& #[trigger] projects@[k].name@ == config.projects@[k]@
                        &&& projects@[k].path@ == joined_path(root_path@, config.projects@[k]@)
                        &&& *projects@[k].config == *config
                    },
            decreases config.projects@.len() - i,
        {
            projects.push(res.new_project(config.projects[i].as_str()));
            i = i + 1;
        }
        res.projects = projects;
        res
    }

    /// The project called `name` under this workspace's root.
    pub fn new_project(&self, name: &str) -> (r: Project)
        ensures
            r.name@ == name@,
            r.path@ == joined_path(self.root_path@, name@),
            *r.config == *self.config,
    {
        Project {
            name: name.to_owned(),
            path: join_path(self.root_path.as_str(), name),
            config: Rc::clone(&self.config),
        }
    }
}

} // verus!
