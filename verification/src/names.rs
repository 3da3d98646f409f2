//! The words of the on-disk format: schema ids and field names.
use vstd::prelude::*;
use vstd::string::*;
use vstd::utf8::*;

verus! {

/// Spine schema. A wire break publishes a new name; there is no superblock.
pub const SCHEMA: &'static str = "custodes.spine";

/// Root schema of the migrating layout.
pub const SCHEMA_ROOT: &'static str = "custodes.root";

pub const SCHEMA_NODE: &'static str = "manifestus.hamt";

pub const SCHEMA_LONE: &'static str = "manifestus.lone";

pub const SCHEMA_EXTENT: &'static str = "manifestus.extent";

/// Per-address leaves of an older layout: read, never written. The reap rewrites such values into
/// extent form the first time it touches one of their blocks.
pub const SCHEMA_DIRECT: &'static str = "manifestus.direct";

pub const SCHEMA_FURROW: &'static str = "manifestus.furrow";

/// Whether a word can name a schema or a field.
pub open spec fn is_word(s: Seq<char>) -> bool {
    is_ascii_chars(s) && s.len() < 20
}

/// The words of spine and root entries, letter by letter.
pub proof fn lemma_spine_words()
    ensures
        SCHEMA@ == seq!['c', 'u', 's', 't', 'o', 'd', 'e', 's', '.', 's', 'p', 'i', 'n', 'e'],
        SCHEMA_ROOT@ == seq!['c', 'u', 's', 't', 'o', 'd', 'e', 's', '.', 'r', 'o', 'o', 't'],
        "gen"@ == seq!['g', 'e', 'n'],
        "prev"@ == seq!['p', 'r', 'e', 'v'],
        "ring"@ == seq!['r', 'i', 'n', 'g'],
        "tract"@ == seq!['t', 'r', 'a', 'c', 't'],
        "hamt"@ == seq!['h', 'a', 'm', 't'],
        "hamtat"@ == seq!['h', 'a', 'm', 't', 'a', 't'],
        "plow"@ == seq!['p', 'l', 'o', 'w'],
        "reap"@ == seq!['r', 'e', 'a', 'p'],
        "live"@ == seq!['l', 'i', 'v', 'e'],
        "time"@ == seq!['t', 'i', 'm', 'e'],
        "at"@ == seq!['a', 't'],
        "was"@ == seq!['w', 'a', 's'],
        "since"@ == seq!['s', 'i', 'n', 'c', 'e'],
        "resid"@ == seq!['r', 'e', 's', 'i', 'd'],
        "stay"@ == seq!['s', 't', 'a', 'y'],
{
    reveal_strlit("custodes.spine");
    reveal_strlit("custodes.root");
    reveal_strlit("gen");
    reveal_strlit("prev");
    reveal_strlit("ring");
    reveal_strlit("tract");
    reveal_strlit("hamt");
    reveal_strlit("hamtat");
    reveal_strlit("plow");
    reveal_strlit("reap");
    reveal_strlit("live");
    reveal_strlit("time");
    reveal_strlit("at");
    reveal_strlit("was");
    reveal_strlit("since");
    reveal_strlit("resid");
    reveal_strlit("stay");
    assert(SCHEMA@ =~= seq!['c', 'u', 's', 't', 'o', 'd', 'e', 's', '.', 's', 'p', 'i', 'n', 'e']);
    assert(SCHEMA_ROOT@ =~= seq!['c', 'u', 's', 't', 'o', 'd', 'e', 's', '.', 'r', 'o', 'o', 't']);
    assert("gen"@ =~= seq!['g', 'e', 'n']);
    assert("prev"@ =~= seq!['p', 'r', 'e', 'v']);
    assert("ring"@ =~= seq!['r', 'i', 'n', 'g']);
    assert("tract"@ =~= seq!['t', 'r', 'a', 'c', 't']);
    assert("hamt"@ =~= seq!['h', 'a', 'm', 't']);
    assert("hamtat"@ =~= seq!['h', 'a', 'm', 't', 'a', 't']);
    assert("plow"@ =~= seq!['p', 'l', 'o', 'w']);
    assert("reap"@ =~= seq!['r', 'e', 'a', 'p']);
    assert("live"@ =~= seq!['l', 'i', 'v', 'e']);
    assert("time"@ =~= seq!['t', 'i', 'm', 'e']);
    assert("at"@ =~= seq!['a', 't']);
    assert("was"@ =~= seq!['w', 'a', 's']);
    assert("since"@ =~= seq!['s', 'i', 'n', 'c', 'e']);
    assert("resid"@ =~= seq!['r', 'e', 's', 'i', 'd']);
    assert("stay"@ =~= seq!['s', 't', 'a', 'y']);
}

/// The words of tract documents, letter by letter.
pub proof fn lemma_doc_words()
    ensures
        SCHEMA_NODE@ == seq!['m', 'a', 'n', 'i', 'f', 'e', 's', 't', 'u', 's', '.', 'h', 'a', 'm', 't'],
        SCHEMA_LONE@ == seq!['m', 'a', 'n', 'i', 'f', 'e', 's', 't', 'u', 's', '.', 'l', 'o', 'n', 'e'],
        SCHEMA_EXTENT@ == seq![
            'm', 'a', 'n', 'i', 'f', 'e', 's', 't', 'u', 's', '.', 'e', 'x', 't', 'e', 'n', 't',
        ],
        SCHEMA_DIRECT@ == seq![
            'm', 'a', 'n', 'i', 'f', 'e', 's', 't', 'u', 's', '.', 'd', 'i', 'r', 'e', 'c', 't',
        ],
        SCHEMA_FURROW@ == seq![
            'm', 'a', 'n', 'i', 'f', 'e', 's', 't', 'u', 's', '.', 'f', 'u', 'r', 'r', 'o', 'w',
        ],
        "key"@ == seq!['k', 'e', 'y'],
        "v"@ == seq!['v'],
        "size"@ == seq!['s', 'i', 'z', 'e'],
        "i"@ == seq!['i'],
        "depth"@ == seq!['d', 'e', 'p', 't', 'h'],
        "route"@ == seq!['r', 'o', 'u', 't', 'e'],
        "map"@ == seq!['m', 'a', 'p'],
        "ch"@ == seq!['c', 'h'],
        "at"@ == seq!['a', 't'],
        "f"@ == seq!['f'],
        "s"@ == seq!['s'],
        "c"@ == seq!['c'],
{
    reveal_strlit("manifestus.hamt");
    reveal_strlit("manifestus.lone");
    reveal_strlit("manifestus.extent");
    reveal_strlit("manifestus.direct");
    reveal_strlit("manifestus.furrow");
    reveal_strlit("key");
    reveal_strlit("v");
    reveal_strlit("size");
    reveal_strlit("i");
    reveal_strlit("depth");
    reveal_strlit("route");
    reveal_strlit("map");
    reveal_strlit("ch");
    reveal_strlit("at");
    reveal_strlit("f");
    reveal_strlit("s");
    reveal_strlit("c");
    assert(SCHEMA_NODE@ =~= seq!['m', 'a', 'n', 'i', 'f', 'e', 's', 't', 'u', 's', '.', 'h', 'a', 'm', 't']);
    assert(SCHEMA_LONE@ =~= seq!['m', 'a', 'n', 'i', 'f', 'e', 's', 't', 'u', 's', '.', 'l', 'o', 'n', 'e']);
    assert(SCHEMA_EXTENT@ =~= seq![
        'm', 'a', 'n', 'i', 'f', 'e', 's', 't', 'u', 's', '.', 'e', 'x', 't', 'e', 'n', 't',
    ]);
    assert(SCHEMA_DIRECT@ =~= seq![
        'm', 'a', 'n', 'i', 'f', 'e', 's', 't', 'u', 's', '.', 'd', 'i', 'r', 'e', 'c', 't',
    ]);
    assert(SCHEMA_FURROW@ =~= seq![
        'm', 'a', 'n', 'i', 'f', 'e', 's', 't', 'u', 's', '.', 'f', 'u', 'r', 'r', 'o', 'w',
    ]);
    assert("key"@ =~= seq!['k', 'e', 'y']);
    assert("v"@ =~= seq!['v']);
    assert("size"@ =~= seq!['s', 'i', 'z', 'e']);
    assert("i"@ =~= seq!['i']);
    assert("depth"@ =~= seq!['d', 'e', 'p', 't', 'h']);
    assert("route"@ =~= seq!['r', 'o', 'u', 't', 'e']);
    assert("map"@ =~= seq!['m', 'a', 'p']);
    assert("ch"@ =~= seq!['c', 'h']);
    assert("at"@ =~= seq!['a', 't']);
    assert("f"@ =~= seq!['f']);
    assert("s"@ =~= seq!['s']);
    assert("c"@ =~= seq!['c']);
}

/// The words of tract documents can all be written.
pub proof fn lemma_doc_words_writable()
    ensures
        is_word(SCHEMA_NODE@),
        is_word(SCHEMA_LONE@),
        is_word(SCHEMA_EXTENT@),
        is_word(SCHEMA_DIRECT@),
        is_word(SCHEMA_FURROW@),
        is_word("key"@),
        is_word("v"@),
        is_word("size"@),
        is_word("i"@),
        is_word("depth"@),
        is_word("route"@),
        is_word("map"@),
        is_word("ch"@),
        is_word("at"@),
        is_word("f"@),
        is_word("s"@),
        is_word("c"@),
        SCHEMA_NODE@.len() <= 17,
        SCHEMA_LONE@.len() <= 17,
        SCHEMA_EXTENT@.len() <= 17,
        SCHEMA_DIRECT@.len() <= 17,
        SCHEMA_FURROW@.len() <= 17,
        "key"@.len() == 3,
        "v"@.len() == 1,
        "size"@.len() == 4,
        "i"@.len() == 1,
        "depth"@.len() == 5,
        "route"@.len() == 5,
        "map"@.len() == 3,
        "ch"@.len() == 2,
        "at"@.len() == 2,
        "f"@.len() == 1,
        "s"@.len() == 1,
        "c"@.len() == 1,
{
    lemma_doc_words();
}

/// The schemas and field names of tract documents are all different.
pub proof fn lemma_doc_words_differ()
    ensures
        SCHEMA_NODE@ != SCHEMA_LONE@,
        SCHEMA_NODE@ != SCHEMA_EXTENT@,
        SCHEMA_NODE@ != SCHEMA_DIRECT@,
        SCHEMA_NODE@ != SCHEMA_FURROW@,
        SCHEMA_LONE@ != SCHEMA_EXTENT@,
        SCHEMA_LONE@ != SCHEMA_DIRECT@,
        SCHEMA_LONE@ != SCHEMA_FURROW@,
        SCHEMA_EXTENT@ != SCHEMA_DIRECT@,
        SCHEMA_EXTENT@ != SCHEMA_FURROW@,
        SCHEMA_DIRECT@ != SCHEMA_FURROW@,
        "key"@ != "route"@,
        "key"@ != "ch"@,
        "route"@ != "ch"@,
        "size"@ != "s"@,
        "size"@ != "c"@,
        "size"@ != "f"@,
        "s"@ != "c"@,
        "depth"@ != "map"@,
        "depth"@ != "at"@,
        "map"@ != "at"@,
        "key"@ != "v"@,
        "i"@ != "v"@,
{
    lemma_doc_words();
    assert(SCHEMA_NODE@[11] != SCHEMA_LONE@[11]);
    assert(SCHEMA_EXTENT@[11] != SCHEMA_DIRECT@[11]);
    assert(SCHEMA_EXTENT@[11] != SCHEMA_FURROW@[11]);
    assert(SCHEMA_DIRECT@[11] != SCHEMA_FURROW@[11]);
    assert("s"@[0] != "c"@[0]);
    assert("i"@[0] != "v"@[0]);
    assert("size"@.len() == 4 && "s"@.len() == 1 && "c"@.len() == 1 && "f"@.len() == 1);
    assert("key"@.len() == 3 && "v"@.len() == 1 && "ch"@.len() == 2 && "route"@.len() == 5);
    assert("depth"@.len() == 5 && "map"@.len() == 3 && "at"@.len() == 2);
}

/// The spine's words can all be written.
pub proof fn lemma_spine_words_writable()
    ensures
        is_word(SCHEMA@),
        is_word(SCHEMA_ROOT@),
        is_word("gen"@),
        is_word("prev"@),
        is_word("ring"@),
        is_word("tract"@),
        is_word("hamt"@),
        is_word("hamtat"@),
        is_word("plow"@),
        is_word("reap"@),
        is_word("live"@),
        is_word("time"@),
        is_word("at"@),
        is_word("was"@),
        is_word("since"@),
        is_word("resid"@),
        is_word("stay"@),
{
    lemma_spine_words();
}

/// The spine's field names are all different.
pub proof fn lemma_spine_words_differ()
    ensures
        "gen"@ != "prev"@,
        "gen"@ != "ring"@,
        "gen"@ != "tract"@,
        "gen"@ != "hamt"@,
        "gen"@ != "hamtat"@,
        "gen"@ != "plow"@,
        "gen"@ != "reap"@,
        "gen"@ != "live"@,
        "gen"@ != "time"@,
        "prev"@ != "ring"@,
        "prev"@ != "hamt"@,
        "ring"@ != "tract"@,
        "ring"@ != "hamtat"@,
        "ring"@ != "plow"@,
        "ring"@ != "reap"@,
        "ring"@ != "live"@,
        "tract"@ != "hamtat"@,
        "tract"@ != "plow"@,
        "tract"@ != "reap"@,
        "tract"@ != "live"@,
        "hamtat"@ != "plow"@,
        "hamtat"@ != "reap"@,
        "hamtat"@ != "live"@,
        "plow"@ != "reap"@,
        "plow"@ != "live"@,
        "reap"@ != "live"@,
        "gen"@ != "at"@,
        "gen"@ != "was"@,
        "gen"@ != "since"@,
        "gen"@ != "resid"@,
        "gen"@ != "stay"@,
        "ring"@ != "at"@,
        "ring"@ != "was"@,
        "ring"@ != "since"@,
        "ring"@ != "resid"@,
        "ring"@ != "stay"@,
        "at"@ != "was"@,
        "at"@ != "since"@,
        "at"@ != "resid"@,
        "at"@ != "stay"@,
        "was"@ != "since"@,
        "was"@ != "resid"@,
        "was"@ != "stay"@,
        "since"@ != "resid"@,
        "since"@ != "stay"@,
        "resid"@ != "stay"@,
        SCHEMA@ != SCHEMA_ROOT@,
{
    lemma_spine_words();
    assert("prev"@[0] != "ring"@[0]);
    assert("prev"@[0] != "hamt"@[0]);
    assert("ring"@[1] != "reap"@[1]);
    assert("ring"@[0] != "plow"@[0]);
    assert("ring"@[0] != "live"@[0]);
    assert("plow"@[0] != "reap"@[0]);
    assert("plow"@[0] != "live"@[0]);
    assert("reap"@[0] != "live"@[0]);
    assert("ring"@[0] != "stay"@[0]);
    assert("gen"@[0] != "was"@[0]);
    assert("since"@[0] != "resid"@[0]);
}

}
