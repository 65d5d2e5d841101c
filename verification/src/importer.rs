//! What the editor importers offer and where they save what they import.

use vstd::prelude::*;

use crate::text::str_concat;

verus! {

/// File extension of expressions.
pub const EXPRESSION_EXTENSION: &'static str = "exp3.json";

/// File extension of motions.
pub const MOTION_EXTENSION: &'static str = "motion3.json";

/// File extension of model settings.
pub const MODEL_EXTENSION: &'static str = "model3.json";

/// An import option: its name and its default value.
pub struct ImportOption {
    pub name: String,
    pub default_value: bool,
}

/// The view of a list of import options.
pub open spec fn options_view(v: Seq<ImportOption>) -> Seq<(Seq<char>, bool)> {
    v.map_values(|o: ImportOption| (o.name@, o.default_value))
}

/// The options of the model importer: include expressions, group them by
/// folder, include motions; all on by default.
pub fn model_import_options() -> (opts: Vec<ImportOption>)
    ensures
        options_view(opts@) == seq![
            ("include_expressions"@, true),
            ("group_expressions_by_folder"@, true),
            ("include_motions"@, true),
        ],
{
    let mut opts: Vec<ImportOption> = Vec::new();
    opts.push(ImportOption { name: "include_expressions".to_owned(), default_value: true });
    opts.push(ImportOption { name: "group_expressions_by_folder".to_owned(), default_value: true });
    opts.push(ImportOption { name: "include_motions".to_owned(), default_value: true });
    assert(options_view(opts@) =~= seq![
        ("include_expressions"@, true),
        ("group_expressions_by_folder"@, true),
        ("include_motions"@, true),
    ]);
    opts
}

/// Where an importer saves a resource: the save path given by the editor,
/// a dot, and the importer's save extension.
pub fn saved_resource_path(save_path: &str, extension: &str) -> (path: String)
    ensures
        path@ == save_path@ + "."@ + extension@,
{
    let head = str_concat(save_path, ".");
    str_concat(head.as_str(), extension)
}

/// The pattern of the motion files found under a model's directory, at any
/// depth: `<base>/**/*.motion3.json`.
pub fn motion_file_pattern(base: &str) -> (pattern: String)
    ensures
        pattern@ == base@ + "/**/*."@ + MOTION_EXTENSION@,
{
    let head = str_concat(base, "/**/*.");
    str_concat(head.as_str(), MOTION_EXTENSION)
}

} // verus!
