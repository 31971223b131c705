//! Where the node keeps its files, and what its command line says.

use vstd::prelude::*;
use vstd::string::*;

use crate::text::{str_eq, trim, trimmed};

verus! {

/// A path with one more step. A name that starts at the root stands for itself.
pub open spec fn joined(dir: Seq<char>, name: Seq<char>) -> Seq<char> {
    if dir.len() == 0 || (name.len() > 0 && name[0] == '/') {
        name
    } else if dir.last() == '/' {
        dir + name
    } else {
        dir + "/"@ + name
    }
}

/// A path with one more step. A name that starts at the root stands for itself.
pub fn join(dir: &str, name: &str) -> (r: String)
    ensures
        r@ == joined(dir@, name@),
{
    if name.unicode_len() > 0 && name.get_char(0) == '/' {
        return name.to_owned();
    }
    let n: usize = dir.unicode_len();
    let mut s: String = dir.to_owned();
    if n > 0 && dir.get_char(n - 1) != '/' {
        s.append("/");
    }
    s.append(name);
    proof {
        if n == 0 {
            assert(dir@ + name@ =~= name@);
        }
    }
    s
}

/// Where the node keeps its files: the configuration and the data below the root, and the
/// logs.
#[derive(Debug, Clone)]
pub struct WorkDir {
    pub root: String,
    pub logs_dir: String,
}

impl WorkDir {
    /// The files below a directory.
    pub fn standalone(dir: &str, _name: &str) -> (r: Self)
        ensures
            r.root@ == dir@,
            r.logs_dir@ == joined(dir@, "logs"@),
    {
        WorkDir { root: dir.to_owned(), logs_dir: join(dir, "logs") }
    }

    /// The files below the current directory, where there is one.
    pub fn auto_detect(_name: &str, current: &Option<String>) -> (r: Self)
        ensures
            r.root@ == match *current {
                Some(d) => d@,
                None => "."@,
            },
            r.logs_dir@ == joined(r.root@, "logs"@),
    {
        match current {
            Some(d) => WorkDir::standalone(d.as_str(), _name),
            None => WorkDir::standalone(".", _name),
        }
    }

    /// The directories that must be there, in the order in which they are made.
    pub fn dirs(&self) -> (r: Vec<String>)
        ensures
            r@.len() == 3,
            r@[0]@ == joined(self.root@, "config"@),
            r@[1]@ == joined(self.root@, "data"@),
            r@[2]@ == self.logs_dir@,
    {
        vec![
            join(self.root.as_str(), "config"),
            join(self.root.as_str(), "data"),
            self.logs_dir.clone(),
        ]
    }

    /// The configuration file.
    pub fn config_file(&self) -> (r: String)
        ensures
            r@ == joined(joined(self.root@, "config"@), "config.yaml"@),
    {
        join(join(self.root.as_str(), "config").as_str(), "config.yaml")
    }

    /// A database.
    pub fn db_file(&self, name: &str) -> (r: String)
        ensures
            r@ == joined(joined(self.root@, "data"@), name@ + ".db"@),
    {
        let mut file: String = name.to_owned();
        file.append(".db");
        join(join(self.root.as_str(), "data").as_str(), file.as_str())
    }

    /// The file with the identifier of the node.
    pub fn node_id_file(&self) -> (r: String)
        ensures
            r@ == joined(joined(self.root@, "data"@), "node_id"@),
    {
        join(join(self.root.as_str(), "data").as_str(), "node_id")
    }
}

/// The directory that the arguments from the `i`th on name: the one behind the first
/// `--work-dir` that has something behind it.
pub open spec fn work_dir_in(args: Seq<Seq<char>>, i: int) -> Option<Seq<char>>
    decreases args.len() - i,
{
    if i < 0 || i >= args.len() {
        None
    } else if args[i] == "--work-dir"@ && i + 1 < args.len() {
        Some(args[i + 1])
    } else {
        work_dir_in(args, i + 1)
    }
}

/// The texts of arguments.
pub open spec fn arg_texts(args: Seq<String>) -> Seq<Seq<char>> {
    args.map_values(|a: String| a@)
}

/// The directory that the command line names. The first argument is the program.
pub fn parse_work_dir_arg(args: &Vec<String>) -> (r: Option<String>)
    ensures
        r is Some <==> work_dir_in(arg_texts(args@), 1) is Some,
        r matches Some(d) ==> work_dir_in(arg_texts(args@), 1) == Some(d@),
{
    let ghost texts = arg_texts(args@);
    let mut i: usize = 1;
    while i < args.len()
        invariant
            1 <= i,
            texts == arg_texts(args@),
            work_dir_in(texts, 1) == work_dir_in(texts, i as int),
        decreases args@.len() - i,
    {
        if str_eq(args[i].as_str(), "--work-dir") && i + 1 < args.len() {
            return Some(args[i + 1].clone());
        }
        i = i + 1;
    }
    None
}

/// What the command line says of the configuration.
pub enum ConfigArg {
    /// The file to read.
    Path(String),
    /// That help is wanted.
    Help,
    /// Nothing.
    Absent,
}

/// What arguments say of the configuration, by its contents.
pub enum ConfigArgView {
    Path(Seq<char>),
    Help,
    Absent,
}

impl View for ConfigArg {
    type V = ConfigArgView;

    open spec fn view(&self) -> ConfigArgView {
        match self {
            ConfigArg::Path(p) => ConfigArgView::Path(p@),
            ConfigArg::Help => ConfigArgView::Help,
            ConfigArg::Absent => ConfigArgView::Absent,
        }
    }
}

/// What the arguments from the `i`th on say of the configuration: the first that names a
/// file or asks for help decides.
pub open spec fn config_arg_in(args: Seq<Seq<char>>, i: int) -> ConfigArgView
    decreases args.len() - i,
{
    if i < 0 || i >= args.len() {
        ConfigArgView::Absent
    } else if (args[i] == "--config"@ || args[i] == "-c"@) && i + 1 < args.len() {
        ConfigArgView::Path(args[i + 1])
    } else if args[i] == "--help"@ || args[i] == "-h"@ {
        ConfigArgView::Help
    } else {
        config_arg_in(args, i + 1)
    }
}

/// What the command line says of the configuration. The first argument is the program.
pub fn parse_config_path(args: &Vec<String>) -> (r: ConfigArg)
    ensures
        r@ == config_arg_in(arg_texts(args@), 1),
{
    let ghost texts = arg_texts(args@);
    let mut i: usize = 1;
    while i < args.len()
        invariant
            1 <= i,
            texts == arg_texts(args@),
            config_arg_in(texts, 1) == config_arg_in(texts, i as int),
        decreases args@.len() - i,
    {
        let a = args[i].as_str();
        let config = str_eq(a, "--config") || str_eq(a, "-c");
        if config && i + 1 < args.len() {
            return ConfigArg::Path(args[i + 1].clone());
        }
        if str_eq(a, "--help") || str_eq(a, "-h") {
            proof {
                assert(texts[i as int] == a@);
            }
            return ConfigArg::Help;
        }
        i = i + 1;
    }
    ConfigArg::Absent
}

/// The log level that the configuration names, `info` where it names none.
pub open spec fn log_level_of(value: Option<Seq<char>>) -> Seq<char> {
    match value {
        Some(v) => if trimmed(v).len() == 0 {
            "info"@
        } else {
            trimmed(v)
        },
        None => "info"@,
    }
}

/// The text of an option.
pub open spec fn text_of(o: Option<String>) -> Option<Seq<char>> {
    match o {
        Some(s) => Some(s@),
        None => None,
    }
}

/// The text that a YAML document has under a key.
pub uninterp spec fn yaml_text(content: Seq<char>, key: Seq<char>) -> Option<Seq<char>>;

/// `serde_yaml::from_str` at the type `serde_yaml::Value`, then `Value::get` and
/// `Value::as_str`: the text under the key, where the document parses, is a mapping and has a
/// text there. It depends on the document and the key alone. How the document parses is not
/// stated.
#[verifier::external_body]
fn yaml_text_at(content: &str, key: &str) -> (r: Option<String>)
    ensures
        text_of(r) == yaml_text(content@, key@),
{
    let root = serde_yaml::from_str::<serde_yaml::Value>(content).ok()?;
    Some(root.get(key)?.as_str()?.to_owned())
}

/// The log level that the text of a configuration file names, `info` where there is no file,
/// it does not parse, or it names none.
pub fn peek_log_level(content: &Option<String>) -> (r: String)
    ensures
        r@ == log_level_of(
            match *content {
                Some(c) => yaml_text(c@, "log_level"@),
                None => None,
            },
        ),
{
    match content {
        Some(c) => log_level(&yaml_text_at(c.as_str(), "log_level")),
        None => log_level(&None),
    }
}

/// The log level out of what the configuration file has under its name.
pub fn log_level(value: &Option<String>) -> (r: String)
    ensures
        r@ == log_level_of(text_of(*value)),
{
    match value {
        Some(v) => trimmed_log_level(trim(v.as_str())),
        None => "info".to_owned(),
    }
}

/// A log level without blanks around it, `info` where nothing is left.
pub fn trimmed_log_level(level: String) -> (r: String)
    ensures
        r@ == if level@.len() == 0 {
            "info"@
        } else {
            level@
        },
{
    if level.as_str().unicode_len() == 0 {
        "info".to_owned()
    } else {
        level
    }
}

} // verus!
