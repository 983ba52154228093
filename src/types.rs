//! The snippet data model.

use vstd::prelude::*;

verus! {

/// One snippet declaration as written in a source file.
#[derive(Debug, Clone)]
pub struct CommandSnippet {
    /// A short description of what the command does; it is also the key.
    pub description: String,
    /// The shell command line to run.
    pub command: String,
    /// Tags for filtering; empty when the declaration gives none.
    pub tags: Vec<String>,
}

/// The declarations of one source file.
#[derive(Debug, Clone)]
pub struct FileDef {
    /// The snippets declared in the file, in file order.
    pub commands: Vec<CommandSnippet>,
}

/// A snippet of the registry, together with the file that declared it.
#[derive(Debug, Clone)]
pub struct CommandDef {
    /// A short description of what the command does; unique in a registry.
    pub description: String,
    /// The shell command line to run.
    pub command: String,
    /// The path of the source file that declared the snippet.
    pub source_file: String,
    /// Tags associated with the snippet.
    pub tags: Vec<String>,
}

/// The views of a list of texts.
pub open spec fn texts(v: Seq<String>) -> Seq<Seq<char>> {
    v.map_values(|t: String| t@)
}

/// What a registry entry holds, as character sequences.
pub struct DefModel {
    pub description: Seq<char>,
    pub command: Seq<char>,
    pub source_file: Seq<char>,
    pub tags: Seq<Seq<char>>,
}

impl View for CommandDef {
    type V = DefModel;

    open spec fn view(&self) -> DefModel {
        DefModel {
            description: self.description@,
            command: self.command@,
            source_file: self.source_file@,
            tags: texts(self.tags@),
        }
    }
}

/// A copy of a registry entry.
pub fn copy_def(d: &CommandDef) -> (r: CommandDef)
    ensures
        r@ == d@,
{
    CommandDef {
        description: d.description.clone(),
        command: d.command.clone(),
        source_file: d.source_file.clone(),
        tags: clone_texts(&d.tags),
    }
}

/// A copy of a list of texts.
pub fn clone_texts(v: &Vec<String>) -> (r: Vec<String>)
    ensures
        r@ == v@,
{
    let mut r: Vec<String> = Vec::new();
    let mut i: usize = 0;
    while i < v.len()
        invariant
            i <= v.len(),
            r@ == v@.take(i as int),
        decreases v.len() - i,
    {
        r.push(v[i].clone());
        assert(r@ =~= v@.take(i + 1));
        i = i + 1;
    }
    assert(r@ =~= v@);
    r
}

} // verus!
