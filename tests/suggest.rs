use upodesh::patterns::{Block, Patterns};
use upodesh::suggest::Suggest;
use upodesh::words::Words;

fn rule(key: &str, cands: &[&str], optional: bool) -> (String, Block) {
    (
        key.to_string(),
        Block {
            transliterate: cands.iter().map(|c| c.to_string()).collect(),
            entire_block_optional: if optional { Some(true) } else { None },
        },
    )
}

fn sample_patterns() -> Patterns {
    let dict = vec![
        rule("s", &["শ", "স", "ষ", "স্ম"], false),
        rule("sh", &["শ", "স্ব"], false),
        rule("a", &["া", "অ", "আ"], false),
        rule("r", &["র", "ড়", "র্ব"], false),
        rule("i", &["ি", "ী"], false),
        rule("m", &["ম"], false),
        rule("l", &["ল"], false),
        rule("k", &["ক"], false),
        rule("kh", &["খ"], false),
        rule("kkh", &["ঃখ", "খ"], false),
        rule("o", &["ো"], true),
        rule("O", &["অ", "ও"], false),
        rule("ng", &["ং", "ঙ"], false),
        rule("ch", &["চ", "ছ"], false),
        rule("chch", &["চ্ছ"], false),
        rule("cch", &["চ্ছ"], false),
        rule("e", &["ে"], false),
        rule("d", &["দ"], false),
        rule("dh", &["ধ"], false),
        rule("n", &["ন"], false),
        rule("t", &["ত"], false),
        rule("u", &["ু"], false),
    ];
    Patterns::new(dict, vec!["ঁ".to_string()])
}

const SAMPLE_WORDS: [&str; 22] = [
    "শারি", "শারী", "শাড়ি", "শাড়ী", "সারি", "সারী", "সাড়ি", "সাড়ী", "স্মঅরী",
    "ষাঁড়", "সার", "সার্ব", "সাড়", "অমরা", "আমরা", "আমড়া", "লালশাক", "লালরং",
    "লালরঙ", "অংশচ্ছেদ", "স্বাধীনতা", "দুঃখ",
];

fn sample_engine() -> Suggest {
    let mut words: Vec<&str> = SAMPLE_WORDS.to_vec();
    words.push("দুখ");
    Suggest::new(sample_patterns(), Words::new(&words))
}

fn sort(mut vec: Vec<String>) -> Vec<String> {
    vec.sort();
    vec
}

#[test]
fn test_suggestions() {
    let suggest = sample_engine();

        assert_eq!(
            sort(suggest.suggest("sari")),
            vec![
                "শারি",
                "শারী",
                "শাড়ি",
                "শাড়ী",
                "সারি",
                "সারী",
                "সাড়ি",
                "সাড়ী",
                "স্মঅরী"
            ]
        );
        assert_eq!(sort(suggest.suggest("sar")), vec!["ষাঁড়", "সার", "সার্ব", "সাড়"]);
        assert_eq!(sort(suggest.suggest("amra")), vec!["অমরা", "আমরা", "আমড়া"]);
        assert_eq!(sort(suggest.suggest("lalshak")), vec!["লালশাক"]);
        assert_eq!(sort(suggest.suggest("lalrong")), vec!["লালরং", "লালরঙ"]);
        assert_eq!(sort(suggest.suggest("ongshochched")), vec!["অংশচ্ছেদ"]);
        assert_eq!(sort(suggest.suggest("ongshocched")), vec!["অংশচ্ছেদ"]);
        assert_eq!(sort(suggest.suggest("shadhinota")), vec!["স্বাধীনতা"]);
        assert_eq!(sort(suggest.suggest("dukkho")), vec!["দুঃখ", "দুখ"]);
}

#[test]
fn test_patterns_loading() {
    let patterns = sample_patterns();

    let optional_block = patterns.block("o").unwrap();
    assert!(optional_block.entire_block_optional.is_some());
    assert!(patterns.block("x").is_none());
}

#[test]
fn test_words_load() {
    let words = Words::new(&SAMPLE_WORDS);
    assert!(words.trie.matching_node("আমরা").unwrap().is_complete_word());
}

#[test]
fn empty_and_unmatched_input_suggest_nothing() {
    let suggest = sample_engine();
    assert_eq!(suggest.suggest(""), Vec::<String>::new());
    assert_eq!(suggest.suggest("123"), Vec::<String>::new());
    assert_eq!(suggest.suggest("zzz"), Vec::<String>::new());
}

#[test]
fn unmatched_letters_are_skipped() {
    let suggest = sample_engine();
    assert_eq!(sort(suggest.suggest("lalxshak")), vec!["লালশাক"]);
}

#[test]
fn suggestions_have_no_duplicates() {
    let suggest = sample_engine();
    let found = suggest.suggest("dukkho");
    let mut deduped = sort(found.clone());
    deduped.dedup();
    assert_eq!(deduped.len(), found.len());
}

#[test]
fn normalized_input_gives_same_suggestions() {
    let suggest = sample_engine();
    for x in ["a!o", "Amra", "o!ngshochched", "  sari "] {
        let once = upodesh::utils::fix_string(x);
        let twice = upodesh::utils::fix_string(&once);
        assert_eq!(sort(suggest.suggest(&once)), sort(suggest.suggest(&twice)));
    }
}

#[test]
fn repeated_calls_agree() {
    let suggest = sample_engine();
    assert_eq!(sort(suggest.suggest("sari")), sort(suggest.suggest("sari")));
}

#[test]
fn optional_block_keeps_skipping_path() {
    let suggest = sample_engine();
    // "o" may be left out: the word without it is still found.
    assert_eq!(sort(suggest.suggest("dukkh")), sort(suggest.suggest("dukkho")));
    assert_eq!(sort(suggest.suggest("lalrng")), vec!["লালরং", "লালরঙ"]);
}
