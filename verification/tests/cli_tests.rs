use lume::bm25::document_frequencies;
use lume::bm25::parse_markdown;
use lume::bm25::term_frequencies;
use lume::bm25::Section;
use lume::cli::crawl::chrono_timestamp;
use lume::cli::crawl::format_timestamp;
use lume::cli::crawl::make_safe_slug;
use lume::cli::crawl::page_markdown;
use lume::cli::crawl::saved_page_text;
use lume::cli::crawl::token_from_env_file;
use lume::cli::hatcher_boost::cached_session_id;
use lume::cli::hatcher_boost::chunk_large_sections;
use lume::cli::hatcher_boost::corpus_matches;
use lume::cli::hatcher_boost::file_sections;
use lume::cli::hatcher_boost::parse_index;
use lume::cli::hatcher_boost::percent_encode;
use lume::cli::hatcher_boost::query_cache_key;
use lume::cli::hatcher_boost::read_prompt;
use lume::cli::hatcher_boost::reply_action;
use lume::cli::hatcher_boost::semantic_source;
use lume::cli::hatcher_boost::ReplyAction;
use lume::cli::hatcher_boost::SearchReply;
use lume::cli::hatcher_boost::SemanticSource;
use lume::cli::hatcher_boost::PromptInput;
use lume::cli::hatcher_boost::SessionCache;
use lume::cli::hatcher_boost::CHUNK_LIMIT;
use lume::cli::hatcher_boost::SESSION_TTL_SECS;

fn sec(title: &str, body: &str) -> Section {
    Section { title: title.to_string(), body: body.to_string(), line_number: 7, filename: Some("f.md".to_string()) }
}

#[test]
fn markdown_sections_at_headers() {
    let md = "intro line\n# First\nbody 1\nbody 2\n\n## Second ##\r\ntext\n#\n#   \n";
    let s = parse_markdown(md);
    assert_eq!(s.len(), 3);
    assert_eq!(s[0].title, "Introduction");
    assert_eq!(s[0].body, "intro line");
    assert_eq!(s[0].line_number, 1);
    assert_eq!(s[1].title, "First");
    assert_eq!(s[1].body, "body 1\nbody 2\n");
    assert_eq!(s[1].line_number, 2);
    assert_eq!(s[2].title, "Second ##");
    assert_eq!(s[2].body, "text\n#\n#   ");
    assert_eq!(s[2].line_number, 6);
    assert!(s[0].filename.is_none());
}

#[test]
fn markdown_without_headers_is_one_section() {
    let s = parse_markdown("just text");
    assert_eq!(s.len(), 1);
    assert_eq!(s[0].title, "Introduction");
    let s = parse_markdown("");
    assert_eq!(s.len(), 1);
    assert_eq!(s[0].body, "");
    let s = parse_markdown("# Only");
    assert_eq!(s.len(), 2);
    assert_eq!(s[0].body, "");
    assert_eq!(s[1].title, "Only");
    assert_eq!(s[1].line_number, 1);
}

#[test]
fn slugs_of_urls() {
    assert_eq!(make_safe_slug("https://www.Example.com/a-b?q=1&x=_y"), "example_com_a_b_q_1_x_y");
    assert_eq!(make_safe_slug("http://http://site.org//"), "site_org");
    assert_eq!(make_safe_slug("https://"), "index");
    assert_eq!(make_safe_slug("__/?__"), "index");
    assert_eq!(make_safe_slug("Ünï code!"), "Ünïcode");
}

#[test]
fn timestamps() {
    assert_eq!(format_timestamp(Some(0)), "Unix Epoch Secs 0");
    assert_eq!(format_timestamp(Some(1700000000)), "Unix Epoch Secs 1700000000");
    assert_eq!(format_timestamp(None), "Unknown time");
    let now = chrono_timestamp();
    assert!(now.starts_with("Unix Epoch Secs "));
    let secs: u64 = now["Unix Epoch Secs ".len()..].parse().unwrap();
    assert!(secs > 1_600_000_000);
}

#[test]
fn token_lines_of_env_files() {
    assert_eq!(
        token_from_env_file("A=1\n  NUTS_SERVICES_TOKEN= abc=def \nNUTS_SERVICES_TOKEN=second\n"),
        Some("abc=def".to_string())
    );
    assert_eq!(token_from_env_file("NUTS_SERVICES_TOKEN=\n"), Some(String::new()));
    assert_eq!(token_from_env_file("X_NUTS_SERVICES_TOKEN=1\nnuts_services_token=2"), None);
    assert_eq!(token_from_env_file(""), None);
}

#[test]
fn percent_encoding_of_queries() {
    assert_eq!(percent_encode("a b-c_d.e~f"), "a+b-c_d.e~f");
    assert_eq!(percent_encode("a&b=c/?"), "a%26b%3Dc%2F%3F");
    assert_eq!(percent_encode("é"), "%C3%A9");
    assert_eq!(percent_encode(""), "");
}

#[test]
fn small_sections_pass_unchanged() {
    let out = chunk_large_sections(vec![sec("T", "short body"), sec("U", "")]);
    assert_eq!(out.len(), 2);
    assert_eq!(out[0].title, "T");
    assert_eq!(out[0].body, "short body");
    assert_eq!(out[1].title, "U");
    assert_eq!(out[0].filename, Some("f.md".to_string()));
}

#[test]
fn large_sections_are_cut_at_paragraphs() {
    let para_a = "a".repeat(15000);
    let para_b = "b".repeat(15000);
    let para_c = "c".repeat(5000);
    let body = format!("{}\n\n{}\n\n{}", para_a, para_b, para_c);
    let out = chunk_large_sections(vec![sec("Big", &body)]);
    assert_eq!(out.len(), 2);
    assert_eq!(out[0].title, "Big [Part 1]");
    assert_eq!(out[0].body, para_a);
    assert_eq!(out[1].title, "Big [Part 2]");
    assert_eq!(out[1].body, format!("{}\n\n{}", para_b, para_c));
    assert_eq!(out[1].line_number, 7);
    assert_eq!(out[1].filename, Some("f.md".to_string()));
}

#[test]
fn oversized_paragraphs_are_cut_at_lines() {
    let line = "x".repeat(10000);
    let para = format!("{}\n{}\n{}", line, line, line);
    let out = chunk_large_sections(vec![sec("L", &para)]);
    assert_eq!(out.len(), 2);
    assert_eq!(out[0].body, format!("{}\n{}", line, line));
    assert_eq!(out[1].body, line);
    assert_eq!(out[1].title, "L [Part 2]");
    for s in &out {
        assert!(s.body.len() <= CHUNK_LIMIT);
    }
}

#[test]
fn byte_length_decides_cutting() {
    // 12501 two-byte chars are 25002 bytes: over the limit.
    let body = "é".repeat(12501);
    let out = chunk_large_sections(vec![sec("E", &body)]);
    assert_eq!(out.len(), 1);
    assert_eq!(out[0].title, "E [Part 1]");
    let body = "é".repeat(12500);
    let out = chunk_large_sections(vec![sec("E", &body)]);
    assert_eq!(out[0].title, "E");
}

#[test]
fn cached_sessions_expire() {
    let cache = SessionCache {
        corpus_path: "docs".to_string(),
        corpus_mtime: 5,
        corpus_size: 10,
        session_id: "lume-hatcher-1".to_string(),
        created_at: 1000,
    };
    assert_eq!(cached_session_id(&cache, "docs", 10, 5, 1000), Some("lume-hatcher-1".to_string()));
    assert_eq!(cached_session_id(&cache, "docs", 10, 5, 1000 + SESSION_TTL_SECS), Some("lume-hatcher-1".to_string()));
    assert_eq!(cached_session_id(&cache, "docs", 10, 5, 1001 + SESSION_TTL_SECS), None);
    assert_eq!(cached_session_id(&cache, "docs", 10, 5, 999), None);
    assert_eq!(cached_session_id(&cache, "other", 10, 5, 1000), None);
    assert_eq!(cached_session_id(&cache, "docs", 11, 5, 1000), None);
    assert_eq!(cached_session_id(&cache, "docs", 10, 6, 1000), None);
    assert!(corpus_matches("p", 1, 2, "p", 1, 2));
    assert!(!corpus_matches("p", 1, 2, "q", 1, 2));
}

#[test]
fn source_indices_parse_like_usize() {
    assert_eq!(parse_index("42"), Some(42));
    assert_eq!(parse_index("+7"), Some(7));
    assert_eq!(parse_index("007"), Some(7));
    assert_eq!(parse_index(""), None);
    assert_eq!(parse_index("+"), None);
    assert_eq!(parse_index("-1"), None);
    assert_eq!(parse_index("4a"), None);
    assert_eq!(parse_index(" 4"), None);
    assert_eq!(parse_index(&usize::MAX.to_string()), Some(usize::MAX));
    assert_eq!(parse_index("99999999999999999999999"), None);
}

#[test]
fn prompt_lines() {
    assert!(matches!(read_prompt("   "), PromptInput::Blank));
    assert!(matches!(read_prompt(""), PromptInput::Blank));
    assert!(matches!(read_prompt(" exit\n"), PromptInput::Quit));
    assert!(matches!(read_prompt("quit"), PromptInput::Quit));
    match read_prompt("  lucene search \n") {
        PromptInput::Query(q) => assert_eq!(q, "lucene search"),
        _ => panic!("expected a query"),
    }
    assert!(matches!(read_prompt("EXIT"), PromptInput::Query(_)));
}

#[test]
fn term_and_document_frequencies() {
    let a = term_frequencies("the cat and the Hat, THE end");
    let terms: Vec<&[u8]> = a.terms().iter().map(|t| t.as_slice()).collect();
    assert_eq!(terms, vec![&b"and"[..], b"cat", b"end", b"hat", b"the"]);
    assert_eq!(*a.counts(), vec![1, 1, 1, 1, 3]);
    let b = term_frequencies("a cat");
    let empty = term_frequencies("!!");
    assert!(empty.terms().is_empty());
    let df = document_frequencies(&vec![a, b, empty]);
    let terms: Vec<&[u8]> = df.terms().iter().map(|t| t.as_slice()).collect();
    assert_eq!(terms, vec![&b"a"[..], b"and", b"cat", b"end", b"hat", b"the"]);
    assert_eq!(*df.counts(), vec![1, 1, 2, 1, 1, 1]);
}

#[test]
fn crawled_pages_are_saved_with_a_header() {
    assert_eq!(
        page_markdown(None, Some("plain".to_string()), Some("raw".to_string())),
        Some("plain".to_string())
    );
    assert_eq!(page_markdown(Some("md".to_string()), None, Some("raw".to_string())), Some("md".to_string()));
    assert_eq!(page_markdown(None, None, Some("raw".to_string())), Some("raw".to_string()));
    assert_eq!(page_markdown(None, None, None), None);
    assert_eq!(
        saved_page_text(Some("Title".to_string()), "https://x.org", "Unix Epoch Secs 5", "body"),
        "# Title\n\n*   **Source URL**: https://x.org\n*   **Crawl Timestamp**: Unix Epoch Secs 5\n\n---\n\nbody"
    );
    assert!(saved_page_text(None, "u", "t", "c").starts_with("# Crawled Document\n"));
}

#[test]
fn query_cache_keys_are_trimmed_lowercase() {
    assert_eq!(query_cache_key("  Hello WORLD \n"), "hello world");
    assert_eq!(query_cache_key("ÄÖÜ"), "äöü");
    assert_eq!(query_cache_key(""), "");
}

#[test]
fn corpus_files_become_sections() {
    let s = file_sections("notes.txt", "# not a header here\nplain", true, Some("notes.txt".to_string()));
    assert_eq!(s.len(), 1);
    assert_eq!(s[0].title, "notes.txt");
    assert_eq!(s[0].body, "# not a header here\nplain");
    assert_eq!(s[0].line_number, 1);
    assert_eq!(s[0].filename.as_deref(), Some("notes.txt"));

    let s = file_sections("guide.md", "intro\n# Usage\nrun it", false, Some("guide.md".to_string()));
    assert_eq!(s.len(), 2);
    assert_eq!(s[0].title, "Introduction");
    assert_eq!(s[1].title, "Usage");
    assert_eq!(s[1].body, "run it");
    assert_eq!(s[1].line_number, 2);
    assert!(s.iter().all(|x| x.filename.as_deref() == Some("guide.md")));

    let s = file_sections("guide.md", "# Usage\nrun it", false, None);
    assert_eq!(s.len(), 2);
    assert_eq!(s[0].title, "Introduction");
    assert_eq!(s[0].body, "");
    assert!(s.iter().all(|x| x.filename.is_none()));
}

#[test]
fn slugs_hold_only_slug_chars() {
    for url in ["https://www.Example.com/Ä-b?q=1", "HTTP://X", "__--__", "https://日本.jp/Straße"] {
        let s = make_safe_slug(url);
        assert!(s.chars().all(|c| c == '_' || (c.is_alphanumeric() && !c.is_ascii_uppercase())));
        assert_eq!(make_safe_slug(&s), s);
    }
}

#[test]
fn semantic_results_come_from_cache_or_session() {
    assert_eq!(semantic_source(true, false), SemanticSource::Cache);
    assert_eq!(semantic_source(true, true), SemanticSource::Cache);
    assert_eq!(semantic_source(false, true), SemanticSource::Ask);
    assert_eq!(semantic_source(false, false), SemanticSource::IngestThenAsk);
    assert_eq!(reply_action(SearchReply::Results), ReplyAction::CacheAndUse);
    assert_eq!(reply_action(SearchReply::NotFound), ReplyAction::DropSessionAndRetry);
    assert_eq!(reply_action(SearchReply::Unreadable), ReplyAction::UseNone);
    assert_eq!(reply_action(SearchReply::Failed), ReplyAction::UseNone);
}
