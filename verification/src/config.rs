use vstd::prelude::*;

use crate::bindings::{keymap_of_text, KeyMap};

verus! {

/// The configuration written when a notebook is set up: where the notes
/// live and the default key bindings.
pub const DEFAULT_CONFIG: &'static str = "filaments_dir \".\"

keymap {
    Home {
        q Quit
        <Ctrl-C> Quit
        j MoveDown
        k MoveUp
        <Enter> OpenZettel
        n NewZettel
    }
    Zk {
        <Esc> Quit
        j MoveDown
        k MoveUp
        <Enter> OpenZettel
        n NewZettel
    }
}
";

/// The name of the configuration node that gives the notebook directory.
pub const FILAMENTS_DIR_NODE: &'static str = "filaments_dir";

/// What `kdl` reads as the first argument of the first node named `node`
/// of the KDL document `text`, when that argument is a string: `None` when
/// `text` is not KDL, has no such node, or the argument is missing or not a
/// string.
pub uninterp spec fn kdl_first_string_arg(text: Seq<char>, node: Seq<char>) -> Option<Seq<char>>;

/// What `kdl` writes for the KDL document `text` with the first entry of
/// its first node named `node` set to the string `value` (and that entry's
/// formatting reset): `None` when `text` is not KDL; the document unchanged
/// when it has no such node or the node no entry.
pub uninterp spec fn kdl_with_first_arg(text: Seq<char>, node: Seq<char>, value: Seq<char>) -> Option<
    Seq<char>,
>;

/// Parses `text` with `kdl` (`KdlDocument::from_str`) and reads the first
/// argument of its first node named `node` (`KdlDocument::get`,
/// `KdlNode::get(0)`) as a string (`KdlValue::as_string`). The result
/// depends on `text` and `node` alone and is named `kdl_first_string_arg`;
/// nothing more is stated of it.
#[verifier::external_body]
fn kdl_string_arg(text: &str, node: &str) -> (r: Option<String>)
    ensures
        match r {
            Some(s) => kdl_first_string_arg(text@, node@) == Some(s@),
            None => kdl_first_string_arg(text@, node@) is None,
        },
{
    let doc: kdl::KdlDocument = text.parse().ok()?;
    let value = doc.get(node)?.get(0)?;
    value.as_string().map(|s| s.to_string())
}

/// Parses `text` with `kdl` (`KdlDocument::from_str`), and if its first
/// node named `node` (`KdlDocument::get_mut`) has a first entry
/// (`KdlNode::entries_mut`), sets that entry's value to the string `value`
/// (`KdlEntry::value_mut`) and resets its formatting
/// (`KdlEntry::clear_format`); returns the document as `kdl` writes it
/// (`Display`). The result depends on the three texts alone and is named
/// `kdl_with_first_arg`; nothing more is stated of it.
#[verifier::external_body]
fn kdl_set_string_arg(text: &str, node: &str, value: &str) -> (r: Option<String>)
    ensures
        match r {
            Some(s) => kdl_with_first_arg(text@, node@, value@) == Some(s@),
            None => kdl_with_first_arg(text@, node@, value@) is None,
        },
{
    let mut doc: kdl::KdlDocument = text.parse().ok()?;
    if let Some(found) = doc.get_mut(node) {
        if let Some(entry) = found.entries_mut().get_mut(0) {
            *entry.value_mut() = kdl::KdlValue::String(value.to_string());
            entry.clear_format();
        }
    }
    Some(doc.to_string())
}

/// The default configuration with the notebook directory set to
/// `fil_dir`: the `filaments_dir` node of `DEFAULT_CONFIG` given `fil_dir`
/// as its argument.
pub fn default_config_text(fil_dir: &str) -> (r: Option<String>)
    ensures
        match r {
            Some(s) => kdl_with_first_arg(DEFAULT_CONFIG@, FILAMENTS_DIR_NODE@, fil_dir@) == Some(s@),
            None => kdl_with_first_arg(DEFAULT_CONFIG@, FILAMENTS_DIR_NODE@, fil_dir@) is None,
        },
{
    kdl_set_string_arg(DEFAULT_CONFIG, FILAMENTS_DIR_NODE, fil_dir)
}

/// The notebook directory that the configuration `text` names: the string
/// argument of its `filaments_dir` node.
pub fn filaments_dir_of(text: &str) -> (r: Option<String>)
    ensures
        match r {
            Some(s) => kdl_first_string_arg(text@, FILAMENTS_DIR_NODE@) == Some(s@),
            None => kdl_first_string_arg(text@, FILAMENTS_DIR_NODE@) is None,
        },
{
    kdl_string_arg(text, FILAMENTS_DIR_NODE)
}

/// The notebook directory and the key bindings that the configuration
/// `text` gives: `None` when either is missing or not valid.
pub fn config_from_text(text: &str) -> (r: Option<(String, KeyMap)>)
    ensures
        match (kdl_first_string_arg(text@, FILAMENTS_DIR_NODE@), keymap_of_text(text@)) {
            (Some(dir), Some(keys)) => r matches Some(c) && c.0@ == dir && c.1@ == keys,
            _ => r is None,
        },
{
    let dir = match filaments_dir_of(text) {
        Some(d) => d,
        None => {
            return None;
        },
    };
    let keymap = match KeyMap::from_kdl(text) {
        Some(k) => k,
        None => {
            return None;
        },
    };
    Some((dir, keymap))
}

} // verus!
