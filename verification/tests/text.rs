use qawakun::auth::{check_credentials, parse_bearer, session_claims, TOKEN_TTL_SECS};
use qawakun::chat::{
    append_assistant_turn, append_user_turn, build_system_prompt, count_user_turns,
    create_chat_completions_body, recent_messages, start_conversation,
};
use qawakun::context::{
    collect_parts, combine_context, split_context, ContextPart, ContextSections, ContextType,
};
use qawakun::mentions::{backoff_delay, is_mention_to_us, select_new_mentions, Cast, CastAuthor};
use qawakun::options::{options_or_default, GameOption, GameOptions, Interaction, Language};
use qawakun::spam::{is_spam, RepliedSet};

#[test]
fn spam_filter_flags_promotional_words() {
    assert!(is_spam("great CRYPTO opportunity"));
    assert!(is_spam("PuMp it"));
    assert!(is_spam("free airdrop inside"));
    assert!(is_spam("waterdrop"));
    assert!(is_spam("new ToKeN launch"));
}

#[test]
fn spam_filter_flags_links_and_tag_storms() {
    assert!(is_spam("see http://example.com"));
    assert!(is_spam("see https://example.com"));
    assert!(is_spam("@a @b @c @d hello"));
    assert!(!is_spam("@a @b @c hello"));
}

#[test]
fn empty_messages_are_refused() {
    assert!(qawakun::chat::is_empty_message(""));
    assert!(!qawakun::chat::is_empty_message("hello"));
}

#[test]
fn spam_filter_passes_ordinary_text() {
    assert!(!is_spam("hello there, what a lovely story"));
    assert!(!is_spam(""));
}

#[test]
fn replied_set_remembers_and_caps() {
    let mut set = RepliedSet::new();
    let id = String::from("post-1");
    assert!(!set.check_and_insert(&id));
    assert!(set.check_and_insert(&id));
    for i in 0..1000 {
        let other = format!("post-x-{}", i);
        set.check_and_insert(&other);
    }
    // 1001 remembered ids: over the cap, so the next fresh id resets the set
    assert_eq!(set.ids.len(), 1001);
    let overflow = String::from("post-overflow");
    assert!(!set.check_and_insert(&overflow));
    assert_eq!(set.ids.len(), 1);
    assert!(set.contains(&overflow));
    assert!(!set.contains(&id));
}

#[test]
fn bearer_header_parsing() {
    assert_eq!(parse_bearer("Bearer abc.def"), Some(String::from("abc.def")));
    assert_eq!(parse_bearer("Bearer "), Some(String::from("")));
    assert_eq!(parse_bearer("Token abc"), None);
    assert_eq!(parse_bearer("Bear"), None);
    assert_eq!(parse_bearer(""), None);
}

#[test]
fn credential_check_is_exact() {
    let u = String::from("admin");
    let p = String::from("opensesame");
    assert!(check_credentials(&u, &p, &String::from("admin"), &p.clone()));
    assert!(!check_credentials(&u, &String::from("other"), &String::from("admin"), &p));
    assert!(!check_credentials(&String::from("x"), &p, &String::from("admin"), &p));
}

#[test]
fn session_claims_expire_one_hour_later() {
    let c = session_claims(String::from("admin"), 1_700_000_000);
    assert_eq!(c.sub, "admin");
    assert_eq!(c.iat, 1_700_000_000);
    assert_eq!(c.exp, 1_700_000_000 + TOKEN_TTL_SECS);
}

#[test]
fn conversation_counts_user_turns() {
    let mut m = start_conversation("be a narrative guide");
    assert_eq!(count_user_turns(&m), 0);
    append_user_turn(&mut m, "hello");
    append_assistant_turn(&mut m, "greetings");
    append_user_turn(&mut m, "tell me more");
    assert_eq!(count_user_turns(&m), 2);
    assert_eq!(m.len(), 4);
    assert_eq!(m[0].role, "system");
    assert_eq!(m[3].content, "tell me more");
}

#[test]
fn completions_body_uses_fixed_model() {
    let m = start_conversation("ctx");
    let body = create_chat_completions_body(m);
    assert_eq!(body.model, "gpt-4o-mini-2024-07-18");
    assert_eq!(body.messages.len(), 1);
}

#[test]
fn system_prompt_frames_the_context() {
    let p = build_system_prompt("THE WORLD");
    assert_eq!(
        p,
        "You are Qawakun, a narrative guide in this interactive experience.\nTHE WORLD\nStay in character and maintain narrative consistency."
    );
}

#[test]
fn recent_messages_keeps_the_tail() {
    let all: Vec<String> = (0..45).map(|i| format!("m{}", i)).collect();
    let tail = recent_messages(&all, 40);
    assert_eq!(tail.len(), 40);
    assert_eq!(tail[0], "m5");
    assert_eq!(tail[39], "m44");
    let short = recent_messages(&all, 100);
    assert_eq!(short.len(), 45);
}

#[test]
fn context_parts_last_submission_wins() {
    let parts = vec![
        ContextPart { context_type: ContextType::World, content: String::from("old world") },
        ContextPart { context_type: ContextType::Laws, content: String::from("the laws") },
        ContextPart { context_type: ContextType::World, content: String::from("new world") },
    ];
    let sections = collect_parts(&parts);
    assert_eq!(sections.world, "new world");
    assert_eq!(sections.laws, "the laws");
    assert_eq!(sections.personality, "");
}

#[test]
fn context_combine_then_split_round_trips() {
    let sections = ContextSections {
        world: String::from("a wide world"),
        laws: String::from("law one. law two."),
        personality: String::from("kind and curious"),
        characters: String::from("the guide"),
        examples: String::from("an example flow"),
    };
    let text = combine_context(&sections);
    assert!(text.starts_with("Title: Threads of the Ankanet"));
    let back = split_context(&text);
    assert_eq!(back.world, "a wide world");
    assert_eq!(back.laws, "law one. law two.");
    assert_eq!(back.personality, "kind and curious");
    assert_eq!(back.characters, "the guide");
    assert_eq!(back.examples, "an example flow");
}

#[test]
fn context_split_trims_padding() {
    let sections = ContextSections {
        world: String::from("  padded world\t"),
        laws: String::from("laws"),
        personality: String::from("p"),
        characters: String::from("c"),
        examples: String::from("e"),
    };
    let text = combine_context(&sections);
    let back = split_context(&text);
    assert_eq!(back.world, "padded world");
    assert_eq!(back.laws, "laws");
}

#[test]
fn context_split_missing_section_is_empty() {
    let back = split_context("no such markers here");
    assert_eq!(back.world, "");
    assert_eq!(back.examples, "");
}

#[test]
fn mention_detection() {
    let cast = Cast {
        hash: String::from("h1"),
        thread_hash: None,
        parent_hash: None,
        author: CastAuthor { fid: 5, username: String::from("alice") },
        text: String::from("hey @QawaKun tell a story"),
        timestamp: 0,
    };
    assert!(is_mention_to_us(&cast, 979204, "@qawakun", None));
    assert!(!is_mention_to_us(&cast, 979204, "@otherbot", None));
    assert!(is_mention_to_us(&cast, 979204, "@otherbot", Some(979204)));
    assert!(is_mention_to_us(&cast, 979204, "@otherbot", Some(5)));
    assert!(!is_mention_to_us(&cast, 979204, "@otherbot", Some(8)));
}

fn plain_cast(hash: &str, fid: u64, text: &str) -> Cast {
    Cast {
        hash: String::from(hash),
        thread_hash: None,
        parent_hash: None,
        author: CastAuthor { fid, username: String::from("someone") },
        text: String::from(text),
        timestamp: 0,
    }
}

#[test]
fn new_mentions_stop_at_last_processed_and_come_oldest_first() {
    let casts = vec![
        plain_cast("h4", 1, "newest"),
        plain_cast("h3", 979204, "own post"),
        plain_cast("h2", 2, "older"),
        plain_cast("h1", 3, "seen already"),
    ];
    let flags = vec![true, true, true, true];
    let last = String::from("h1");
    let selected = select_new_mentions(&casts, &flags, Some(&last), 979204);
    assert_eq!(selected.len(), 2);
    assert_eq!(selected[0].hash, "h2");
    assert_eq!(selected[1].hash, "h4");
}

#[test]
fn new_mentions_respect_flags_and_no_watermark() {
    let casts = vec![plain_cast("h2", 1, "a"), plain_cast("h1", 2, "b")];
    let flags = vec![false, true];
    let selected = select_new_mentions(&casts, &flags, None, 979204);
    assert_eq!(selected.len(), 1);
    assert_eq!(selected[0].hash, "h1");
}

#[test]
fn backoff_doubles_then_gives_up() {
    assert_eq!(backoff_delay(1), Some(2));
    assert_eq!(backoff_delay(2), Some(4));
    assert_eq!(backoff_delay(3), None);
    assert_eq!(backoff_delay(7), None);
}

#[test]
fn url_patterns_match_exactly() {
    // the word patterns ignore case, the link prefixes do not
    assert!(is_spam("see http://example.com"));
    assert!(!is_spam("see HTTP://example.com"));
    assert!(!is_spam("see Https://example.com"));
}

#[test]
fn stored_options_win_over_the_default() {
    let stored = GameOptions {
        languages: vec![Language {
            code: String::from("en"),
            name: String::from("English"),
            interactions: Vec::new(),
        }],
    };
    let (served, used_default) = options_or_default(Some(stored), GameOptions::new());
    assert!(!used_default);
    assert_eq!(served.languages.len(), 1);
    let (fallback, used_default) = options_or_default(None, GameOptions::new());
    assert!(used_default);
    assert_eq!(fallback.languages.len(), 0);
}

#[test]
fn game_options_lookup() {
    let catalogue = GameOptions {
        languages: vec![
            Language {
                code: String::from("en"),
                name: String::from("English"),
                interactions: vec![Interaction {
                    options: vec![GameOption {
                        code: String::from("start"),
                        name: String::from("Start"),
                    }],
                }],
            },
            Language {
                code: String::from("es"),
                name: String::from("Spanish"),
                interactions: Vec::new(),
            },
        ],
    };
    assert_eq!(catalogue.find_language(&String::from("es")), Some(1));
    assert_eq!(catalogue.find_language(&String::from("fr")), None);
    assert_eq!(GameOptions::new().languages.len(), 0);
}
