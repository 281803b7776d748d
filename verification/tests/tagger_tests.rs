use lume::analyzer::normalize_key;
use lume::dict::csv_records;
use lume::dict::is_csv_file_name;
use lume::dict::le_bytes_u128;
use lume::dict::name_order_key;
use lume::dict::tsv_entries;
use lume::derive_output;
use lume::file_stem;
use lume::format_uuid_v4;
use lume::parse_csv_line;
use lume::tokenize;
use lume::Entry;
use lume::OverlapPolicy;
use lume::Tagger;

fn sample() -> Tagger {
    Tagger::build(vec![
        Entry::new("New York", "CITY", "geo:nyc"),
        Entry::new("New York City", "CITY", "geo:nyc"),
        Entry::new("San Francisco", "CITY", "geo:sf"),
        Entry::new("Apache Lucene", "PRODUCT", "sw:lucene"),
        Entry::new("Lucene", "PRODUCT", "sw:lucene"),
        Entry::new("Zürich", "CITY", "geo:zur"),
        Entry::new("Zurich", "CITY", "geo:zur"),
    ])
    .unwrap()
}

#[test]
fn longest_match_wins() {
    let t = sample();
    let tags = t.tag("I love New York City");
    assert_eq!(tags.len(), 1);
    assert_eq!(tags[0].surface, "New York City");
    assert_eq!(tags[0].id, "geo:nyc");
    assert_eq!(tags[0].output, "NEWYORKCITY");
}

#[test]
fn ascii_folding_zurich() {
    let t = sample();
    let tags = t.tag("visit zurich tomorrow");
    assert_eq!(tags.len(), 1);
    assert_eq!(tags[0].surface, "zurich");
    assert_eq!(tags[0].output, "ZURICH");
    assert_eq!(tags[0].id, "geo:zur");
}

#[test]
fn hyphen_stripping() {
    let t = Tagger::build(vec![Entry::new("swlucene", "P", "sw:lucene")]).unwrap();
    let tags = t.tag("we use sw-lucene here");
    assert_eq!(tags.len(), 1);
    assert_eq!(tags[0].surface, "sw-lucene");
    assert_eq!(tags[0].output, "SWLUCENE");
}

#[test]
fn synonyms_collapse_to_one_span() {
    let t = Tagger::build(vec![
        Entry::new("Zürich", "CITY", "geo:zur-de"),
        Entry::new("Zurich", "CITY", "geo:zur-en"),
    ])
    .unwrap();
    let tags = t.tag("hello zurich");
    assert_eq!(tags.len(), 2);
    let ids: Vec<&str> = tags.iter().map(|t| t.id.as_str()).collect();
    assert!(ids.contains(&"geo:zur-de") && ids.contains(&"geo:zur-en"));
    assert_eq!(tags[0].start, tags[1].start);
    assert_eq!(tags[0].end, tags[1].end);
}

#[test]
fn csv_line_parses_quotes_and_commas() {
    let cells = parse_csv_line(r#""Smith, John",42,"He said ""hi""""#);
    assert_eq!(cells, vec!["Smith, John", "42", r#"He said "hi""#]);
}

#[test]
fn csv_text_with_action_column() {
    let recs = csv_records("intent,action,response\nbuy,BUY,Buying\nview,VIEW,Viewing\n");
    assert_eq!(recs.len(), 2);
    assert_eq!(recs[0].phrase, "buy");
    assert_eq!(recs[0].output, Some("BUY".to_string()));
    assert_eq!(recs[1].phrase, "view");
    let mut entries = Vec::new();
    for r in recs {
        let mut e = Entry::new(&r.phrase, "intent", "id-1");
        if let Some(o) = r.output {
            e = e.with_output(&o);
        }
        entries.push(e);
    }
    let tagger = Tagger::build(entries).unwrap();
    let tags = tagger.tag("I want to buy a thing");
    assert_eq!(tags.len(), 1);
    assert_eq!(tags[0].surface, "buy");
    assert_eq!(tags[0].kind, "intent");
    assert_eq!(tags[0].output, "BUY");
}

#[test]
fn csv_without_action_column_derives_outputs() {
    let recs = csv_records("phrase,x\n  New York ,1\n,skipped\n\"a, b\",2\r\n");
    assert_eq!(recs.len(), 2);
    assert_eq!(recs[0].phrase, "New York");
    assert_eq!(recs[0].output, None);
    assert_eq!(recs[1].phrase, "a, b");
    let header_only = csv_records("intent,action\n");
    assert_eq!(header_only.len(), 0);
    assert_eq!(csv_records("").len(), 0);
    let blank_action = csv_records("p,Action\nbuy, \n");
    assert_eq!(blank_action.len(), 1);
    assert_eq!(blank_action[0].output, None);
}

#[test]
fn tsv_dictionary_lines() {
    let es = tsv_entries("city", "# comment\nNew York\tgeo:nyc\n\n  Boston  \nParis\t p1 \n");
    assert_eq!(es.len(), 3);
    assert_eq!(es[0].phrase, "New York");
    assert_eq!(es[0].id, "geo:nyc");
    assert_eq!(es[0].kind, "city");
    assert_eq!(es[1].phrase, "Boston");
    assert_eq!(es[1].id, "4");
    assert_eq!(es[2].phrase, "Paris");
    assert_eq!(es[2].id, "p1");
}

#[test]
fn all_policy_reports_every_match() {
    let t = sample();
    let tags = t.tag_with("I love New York City", OverlapPolicy::All);
    let spans: Vec<(usize, usize, &str)> =
        tags.iter().map(|g| (g.start, g.end, g.surface.as_str())).collect();
    assert_eq!(spans, vec![(7, 15, "New York"), (7, 20, "New York City")]);
    let longest = t.tag_with("Apache Lucene and Lucene", OverlapPolicy::LongestOnly);
    let spans: Vec<(usize, usize)> = longest.iter().map(|g| (g.start, g.end)).collect();
    assert_eq!(spans, vec![(0, 13), (18, 24)]);
    let all = t.tag_with("Apache Lucene and Lucene", OverlapPolicy::All);
    let spans: Vec<(usize, usize)> = all.iter().map(|g| (g.start, g.end)).collect();
    assert_eq!(spans, vec![(0, 13), (7, 13), (18, 24)]);
}

#[test]
fn offsets_are_bytes_and_surface_is_the_text_between() {
    let t = sample();
    let text = "¡Zürich! then San  Francisco";
    let tags = t.tag(text);
    assert_eq!(tags.len(), 2);
    for g in &tags {
        assert_eq!(&text[g.start..g.end], g.surface);
    }
    assert_eq!(tags[0].surface, "Zürich");
    assert_eq!(tags[1].surface, "San  Francisco");
    assert_eq!(tags[1].id, "geo:sf");
}

#[test]
fn nothing_matches_in_unrelated_text() {
    let t = sample();
    assert!(t.tag("nothing to see").is_empty());
    assert!(t.tag("").is_empty());
    assert!(t.tag("York New").is_empty());
}

#[test]
fn dictionary_counts_and_kinds() {
    let t = sample();
    // keys: new york, new york city, san francisco, apache lucene, lucene, zurich
    assert_eq!(t.len(), 6);
    assert!(!t.is_empty());
    assert_eq!(t.record_count(), 6);
    assert_eq!(t.kinds(), vec!["CITY".to_string(), "PRODUCT".to_string()]);
    let empty = Tagger::build(vec![Entry::new("--", "X", "1")]).unwrap();
    assert!(empty.is_empty());
    assert_eq!(empty.len(), 0);
    assert_eq!(empty.record_count(), 0);
    assert!(empty.kinds().is_empty());
}

#[test]
fn output_override_and_derivation() {
    let e = Entry::new("New-York café", "CITY", "x");
    assert_eq!(e.output, None);
    let e = e.with_output("NYC");
    assert_eq!(e.output, Some("NYC".to_string()));
    let t = Tagger::build(vec![e]).unwrap();
    let tags = t.tag("NewYork cafe");
    assert_eq!(tags.len(), 1);
    assert_eq!(tags[0].output, "NYC");
    assert_eq!(derive_output("New-York café"), "NEWYORKCAFE");
    assert_eq!(derive_output("Æther þing!"), "AETHERTHING");
    assert_eq!(derive_output("Łódź"), "OD");
}

#[test]
fn tokens_fold_and_keep_offsets() {
    let toks = tokenize("Ünïcode-Text, 42!");
    let got: Vec<(Vec<u8>, usize, usize)> = toks.iter().map(|t| (t.bytes.clone(), t.start, t.end)).collect();
    assert_eq!(
        got,
        vec![(b"unicodetext".to_vec(), 0, 14), (b"42".to_vec(), 16, 18)]
    );
    let toks = tokenize("Straße œuvre");
    assert_eq!(toks[0].bytes, b"strasse".to_vec());
    assert_eq!(toks[1].bytes, b"oeuvre".to_vec());
    assert!(tokenize("  -- ").is_empty());
}

#[test]
fn keys_join_tokens_with_separator() {
    assert_eq!(normalize_key("New York"), vec![b'n', b'e', b'w', 0x1E, b'y', b'o', b'r', b'k']);
    assert_eq!(normalize_key("sw-lucene"), normalize_key("swlucene"));
    assert_eq!(normalize_key("ZÜRICH"), normalize_key("zurich"));
    assert_eq!(normalize_key("!!"), Vec::<u8>::new());
}

#[test]
fn file_stems_name_kinds() {
    assert_eq!(file_stem("data/intent.csv"), "intent");
    assert_eq!(file_stem("/a/b/product.tar.csv"), "product.tar");
    assert_eq!(file_stem(".hidden"), ".hidden");
    assert_eq!(file_stem("dir/"), "dir");
    assert_eq!(file_stem(""), "default");
    assert_eq!(file_stem("a/.."), "default");
}

#[test]
fn uuid_text_has_version_and_variant() {
    let id = format_uuid_v4(&[0xff; 16]);
    assert_eq!(id, "ffffffff-ffff-4fff-bfff-ffffffffffff");
    let id = format_uuid_v4(&[0u8; 16]);
    assert_eq!(id, "00000000-0000-4000-8000-000000000000");
    let bytes: Vec<u8> = (0u8..16).collect();
    let id = format_uuid_v4(&bytes);
    assert_eq!(id.len(), 36);
    assert_eq!(id, "00010203-0405-4607-8809-0a0b0c0d0e0f");
}

#[test]
fn output_is_key_without_separators_upper_cased() {
    for phrase in ["New York", "sw-lucene", "Zürich Œuvre", "a_b c!d", ""] {
        let key = normalize_key(phrase);
        let from_key: String = key
            .iter()
            .filter(|b| b.is_ascii_alphanumeric())
            .map(|b| (*b as char).to_ascii_uppercase())
            .collect();
        assert_eq!(derive_output(phrase), from_key);
    }
}

#[test]
fn quoted_fields_parse_back() {
    let fields = vec!["a,b".to_string(), "He said \"hi\"".to_string(), "".to_string(), "\"".to_string()];
    let line = fields
        .iter()
        .map(|f| format!("\"{}\"", f.replace('"', "\"\"")))
        .collect::<Vec<_>>()
        .join(",");
    assert_eq!(parse_csv_line(&line), fields);
}

#[test]
fn output_tokens_are_their_own_output() {
    for phrase in ["New York City", "Zürich", "sw-lucene 2.0", "", "Æther"] {
        let out = derive_output(phrase);
        assert_eq!(derive_output(&out), out);
    }
}

#[test]
fn building_succeeds_on_any_entries() {
    let t = Tagger::build(vec![
        Entry::new("a", "k", "1"),
        Entry::new("a", "k", "1"),
        Entry::new("---", "k", "2"),
        Entry::new("", "k", "3"),
    ]);
    assert!(t.is_ok());
    let t = t.unwrap();
    assert_eq!(t.len(), 1);
    assert_eq!(t.record_count(), 1);
    assert!(Tagger::build(Vec::new()).is_ok());
}

#[test]
fn each_token_tokenizes_to_itself() {
    let text = "Hello, sw-lucene Zürich 42! Æsir—x";
    let toks = tokenize(text);
    assert!(!toks.is_empty());
    for t in &toks {
        assert!(!t.bytes.is_empty());
        assert!(t.bytes.iter().all(|b| b.is_ascii_lowercase() || b.is_ascii_digit()));
        let alone = tokenize(&text[t.start..t.end]);
        assert_eq!(alone.len(), 1);
        assert_eq!(alone[0].bytes, t.bytes);
        assert_eq!(alone[0].start, 0);
        assert_eq!(alone[0].end, t.end - t.start);
    }
}

#[test]
fn data_directory_files() {
    assert!(is_csv_file_name("intent.csv"));
    assert!(is_csv_file_name("Intent.CsV"));
    assert!(is_csv_file_name("a.b.csv"));
    assert!(!is_csv_file_name(".csv"));
    assert!(!is_csv_file_name("csv"));
    assert!(!is_csv_file_name("x.csvx"));
    assert!(!is_csv_file_name("x.tsv"));
    assert_eq!(name_order_key("Offensive_EN.csv"), "offensive_en.csv");
    assert_eq!(name_order_key("Zürich.CSV"), "zürich.csv");
}

#[test]
fn clock_bytes_are_little_endian() {
    for n in [0u128, 1, 0x0102_0304_0506_0708_090a_0b0c_0d0e_0f10, u128::MAX, 1_700_000_000_123_456_789] {
        assert_eq!(le_bytes_u128(n), n.to_le_bytes().to_vec());
    }
}
