//! The languages that file extensions stand for in a Markdown code block.

use vstd::prelude::*;
use vstd::string::StringExecFns;

verus! {

/// The table of extensions and the languages they stand for.
pub open spec fn language_table() -> Seq<(Seq<char>, Seq<char>)> {
    seq![
        ("py"@, "python"@),
        ("c"@, "c"@),
        ("cpp"@, "cpp"@),
        ("java"@, "java"@),
        ("js"@, "javascript"@),
        ("ts"@, "typescript"@),
        ("html"@, "html"@),
        ("css"@, "css"@),
        ("xml"@, "xml"@),
        ("json"@, "json"@),
        ("yaml"@, "yaml"@),
        ("yml"@, "yaml"@),
        ("sh"@, "bash"@),
        ("rb"@, "ruby"@),
    ]
}

/// A table of strings as a table of texts.
pub open spec fn pairs(table: Seq<(String, String)>) -> Seq<(Seq<char>, Seq<char>)> {
    table.map_values(|pair: (String, String)| (pair.0@, pair.1@))
}

/// What `table` gives for `extension`: the language of the first row with
/// that extension, and the empty text where there is no such row.
pub open spec fn language_of(table: Seq<(Seq<char>, Seq<char>)>, extension: Seq<char>) -> Seq<
    char,
>
    decreases table.len(),
{
    if table.len() == 0 {
        Seq::empty()
    } else if table[0].0 == extension {
        table[0].1
    } else {
        language_of(table.drop_first(), extension)
    }
}

/// Whether no extension stands in two rows of `table`.
pub open spec fn distinct_extensions(table: Seq<(Seq<char>, Seq<char>)>) -> bool {
    forall|i: int, j: int| 0 <= i < j < table.len() ==> table[i].0 != table[j].0
}

/// No extension stands twice in the table.
pub proof fn lemma_table_distinct()
    ensures
        distinct_extensions(language_table()),
{
    reveal_strlit("py");
    reveal_strlit("c");
    reveal_strlit("cpp");
    reveal_strlit("java");
    reveal_strlit("js");
    reveal_strlit("ts");
    reveal_strlit("html");
    reveal_strlit("css");
    reveal_strlit("xml");
    reveal_strlit("json");
    reveal_strlit("yaml");
    reveal_strlit("yml");
    reveal_strlit("sh");
    reveal_strlit("rb");
    let table = language_table();
    let shape = |k: int| (table[k].0.len(), table[k].0.first(), table[k].0.last());
    assert(shape(0) == (2nat, 'p', 'y'));
    assert(shape(1) == (1nat, 'c', 'c'));
    assert(shape(2) == (3nat, 'c', 'p'));
    assert(shape(3) == (4nat, 'j', 'a'));
    assert(shape(4) == (2nat, 'j', 's'));
    assert(shape(5) == (2nat, 't', 's'));
    assert(shape(6) == (4nat, 'h', 'l'));
    assert(shape(7) == (3nat, 'c', 's'));
    assert(shape(8) == (3nat, 'x', 'l'));
    assert(shape(9) == (4nat, 'j', 'n'));
    assert(shape(10) == (4nat, 'y', 'l'));
    assert(shape(11) == (3nat, 'y', 'l'));
    assert(shape(12) == (2nat, 's', 'h'));
    assert(shape(13) == (2nat, 'r', 'b'));
    assert forall|i: int, j: int| 0 <= i < j < table.len() implies table[i].0 != table[j].0 by {
        assert(shape(i) != shape(j));
    }
}

fn row(extension: &str, language: &str) -> (pair: (String, String))
    ensures
        pair.0@ == extension@,
        pair.1@ == language@,
{
    (String::from_str(extension), String::from_str(language))
}

/// The table of the extensions that have a language.
pub fn initialize_ext_to_lang() -> (table: Vec<(String, String)>)
    ensures
        pairs(table@) == language_table(),
        distinct_extensions(pairs(table@)),
{
    let mut table: Vec<(String, String)> = Vec::new();
    table.push(row("py", "python"));
    table.push(row("c", "c"));
    table.push(row("cpp", "cpp"));
    table.push(row("java", "java"));
    table.push(row("js", "javascript"));
    table.push(row("ts", "typescript"));
    table.push(row("html", "html"));
    table.push(row("css", "css"));
    table.push(row("xml", "xml"));
    table.push(row("json", "json"));
    table.push(row("yaml", "yaml"));
    table.push(row("yml", "yaml"));
    table.push(row("sh", "bash"));
    table.push(row("rb", "ruby"));
    proof {
        assert(pairs(table@) =~= language_table());
        lemma_table_distinct();
    }
    table
}

/// The language that `table` gives for `extension`, empty where it gives
/// none.
pub fn language_for(table: &Vec<(String, String)>, extension: &str) -> (language: String)
    ensures
        language@ == language_of(pairs(table@), extension@),
{
    let wanted = String::from_str(extension);
    let mut i: usize = 0;
    proof {
        assert(pairs(table@).skip(0) == pairs(table@));
    }
    while i < table.len()
        invariant
            i <= table.len(),
            wanted@ == extension@,
            language_of(pairs(table@), extension@) == language_of(
                pairs(table@).skip(i as int),
                extension@,
            ),
        decreases table.len() - i,
    {
        proof {
            assert(pairs(table@).skip(i as int)[0] == (table@[i as int].0@, table@[i as int].1@));
            assert(pairs(table@).skip(i as int).drop_first() == pairs(table@).skip(i + 1));
        }
        if table[i].0 == wanted {
            return table[i].1.clone();
        }
        i += 1;
    }
    String::new()
}

} // verus!
