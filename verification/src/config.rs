use vstd::prelude::*;

verus! {

/// How to invoke one formatter: command, argument template (with the
/// placeholders for text width, language and temp file), whether the source
/// is fed on standard input, and whether output on standard error is fatal.
#[derive(Debug)]
pub struct FormatterSpec {
    pub cmd: String,
    pub args: Vec<String>,
    pub stdin: Option<bool>,
    pub fail_on_stderr: Option<bool>,
}

/// A formatter registry entry: a name bound to a formatter description.
#[derive(Debug)]
pub struct NamedFormatter {
    pub name: String,
    pub spec: FormatterSpec,
}

/// The ordered formatter chain of one language; the first entry is used.
#[derive(Debug)]
pub struct LanguageChain {
    pub language: String,
    pub formatters: Vec<String>,
}

/// A grammar registry entry: a language that can be parsed, with the source
/// text of its injections query.
#[derive(Debug)]
pub struct GrammarEntry {
    pub language: String,
    pub injections_query: String,
}

/// First index whose key equals `key`, if any.
pub open spec fn key_lookup(keys: Seq<Seq<char>>, key: Seq<char>) -> Option<int>
    decreases keys.len(),
{
    if keys.len() == 0 {
        Option::None
    } else if keys[0] == key {
        Option::Some(0int)
    } else {
        match key_lookup(keys.skip(1), key) {
            Option::Some(i) => Option::Some(i + 1),
            Option::None => Option::None,
        }
    }
}

/// The language keys of a grammar registry.
pub open spec fn grammar_keys(gs: Seq<GrammarEntry>) -> Seq<Seq<char>> {
    gs.map_values(|e: GrammarEntry| e.language@)
}

/// The language keys of the per-language formatter chains.
pub open spec fn chain_keys(ls: Seq<LanguageChain>) -> Seq<Seq<char>> {
    ls.map_values(|e: LanguageChain| e.language@)
}

/// The names of a formatter registry.
pub open spec fn formatter_keys(fs: Seq<NamedFormatter>) -> Seq<Seq<char>> {
    fs.map_values(|e: NamedFormatter| e.name@)
}

pub proof fn lemma_key_lookup_at(keys: Seq<Seq<char>>, key: Seq<char>, i: int)
    requires
        0 <= i <= keys.len(),
        forall|k: int| 0 <= k < i ==> keys[k] != key,
        i < keys.len() ==> keys[i] == key,
    ensures
        i < keys.len() ==> key_lookup(keys, key) == Option::Some(i),
        i == keys.len() ==> key_lookup(keys, key) is None,
    decreases i,
{
    if keys.len() == 0 {
    } else if i == 0 {
    } else {
        assert(keys[0] != key);
        lemma_key_lookup_at(keys.skip(1), key, i - 1);
        assert(forall|k: int| 0 <= k < i - 1 ==> keys.skip(1)[k] == keys[k + 1]);
        if i < keys.len() {
            assert(keys.skip(1)[i - 1] == keys[i as int]);
        }
    }
}

/// Finds the registry entry of a language, searching in order.
#[verifier::loop_isolation(false)]
pub fn find_grammar<'a>(grammars: &'a Vec<GrammarEntry>, lang: &String) -> (r: Option<
    &'a GrammarEntry,
>)
    ensures
        match key_lookup(grammar_keys(grammars@), lang@) {
            Option::Some(i) => r matches Some(e) && *e == grammars@[i],
            Option::None => r is None,
        },
{
    let ghost keys = grammar_keys(grammars@);
    let mut i: usize = 0;
    while i < grammars.len()
        invariant
            i <= keys.len(),
            forall|k: int| 0 <= k < i ==> keys[k] != lang@,
        decreases keys.len() - i,
    {
        assert(keys[i as int] == grammars@[i as int].language@);
        if grammars[i].language == *lang {
            proof {
                lemma_key_lookup_at(keys, lang@, i as int);
            }
            return Option::Some(&grammars[i]);
        }
        i += 1;
    }
    proof {
        lemma_key_lookup_at(keys, lang@, keys.len() as int);
    }
    Option::None
}

/// Finds the formatter chain of a language, searching in order.
#[verifier::loop_isolation(false)]
pub fn find_chain<'a>(languages: &'a Vec<LanguageChain>, lang: &String) -> (r: Option<
    &'a LanguageChain,
>)
    ensures
        match key_lookup(chain_keys(languages@), lang@) {
            Option::Some(i) => r matches Some(e) && *e == languages@[i],
            Option::None => r is None,
        },
{
    let ghost keys = chain_keys(languages@);
    let mut i: usize = 0;
    while i < languages.len()
        invariant
            i <= keys.len(),
            forall|k: int| 0 <= k < i ==> keys[k] != lang@,
        decreases keys.len() - i,
    {
        assert(keys[i as int] == languages@[i as int].language@);
        if languages[i].language == *lang {
            proof {
                lemma_key_lookup_at(keys, lang@, i as int);
            }
            return Option::Some(&languages[i]);
        }
        i += 1;
    }
    proof {
        lemma_key_lookup_at(keys, lang@, keys.len() as int);
    }
    Option::None
}

/// Finds a formatter by name, searching in order.
#[verifier::loop_isolation(false)]
pub fn find_formatter<'a>(formatters: &'a Vec<NamedFormatter>, name: &String) -> (r: Option<
    &'a NamedFormatter,
>)
    ensures
        match key_lookup(formatter_keys(formatters@), name@) {
            Option::Some(i) => r matches Some(e) && *e == formatters@[i],
            Option::None => r is None,
        },
{
    let ghost keys = formatter_keys(formatters@);
    let mut i: usize = 0;
    while i < formatters.len()
        invariant
            i <= keys.len(),
            forall|k: int| 0 <= k < i ==> keys[k] != name@,
        decreases keys.len() - i,
    {
        assert(keys[i as int] == formatters@[i as int].name@);
        if formatters[i].name == *name {
            proof {
                lemma_key_lookup_at(keys, name@, i as int);
            }
            return Option::Some(&formatters[i]);
        }
        i += 1;
    }
    proof {
        lemma_key_lookup_at(keys, name@, keys.len() as int);
    }
    Option::None
}

} // verus!
