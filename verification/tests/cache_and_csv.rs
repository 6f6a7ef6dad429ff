use std::sync::Arc;

use qsets_server::services::generator::{
    generate_questions, list_books, parse_csv, validate_csv, GenerateRequest, QuestionRecord,
};
use qsets_server::state::{ParsedPoolCache, MAX_CACHED_POOLS};

fn record(q: &str) -> QuestionRecord {
    QuestionRecord {
        question: q.to_string(),
        qtype: "General".to_string(),
        reference: "John 1:1".to_string(),
        answer: "a".to_string(),
    }
}

#[test]
fn cache_get_remove_and_miss() {
    let mut cache = ParsedPoolCache::new();
    assert!(cache.get(5).is_none());
    cache.insert(5, Arc::new(vec![record("five")]));
    assert_eq!(cache.get(5).unwrap()[0].question, "five");
    assert_eq!(cache.len(), 1);
    cache.remove(5);
    assert!(cache.get(5).is_none());
    assert_eq!(cache.len(), 0);
    cache.remove(5);
    assert_eq!(cache.len(), 0);
}

#[test]
fn cache_shares_the_stored_pool() {
    let mut cache = ParsedPoolCache::default();
    let pool = Arc::new(vec![record("shared")]);
    cache.insert(1, pool.clone());
    let got = cache.get(1).unwrap();
    assert!(Arc::ptr_eq(&got, &pool));
}

#[test]
fn replacing_a_cached_pool_at_capacity_evicts_nothing() {
    let mut cache = ParsedPoolCache::default();
    for id in 1..=MAX_CACHED_POOLS as i32 {
        cache.insert(id, Arc::new(Vec::new()));
    }
    cache.insert(3, Arc::new(vec![record("again")]));
    assert_eq!(cache.len(), MAX_CACHED_POOLS);
    for id in 1..=MAX_CACHED_POOLS as i32 {
        assert!(cache.get(id).is_some());
    }
    cache.insert(100, Arc::new(Vec::new()));
    assert_eq!(cache.len(), MAX_CACHED_POOLS);
    assert!(cache.get(100).is_some());
}

#[test]
fn headers_match_in_any_letter_case() {
    let pool = parse_csv("QUESTION,Type,REFERENCE,answer\nQ,General,John 3:16,A\n");
    assert_eq!(pool.len(), 1);
    assert_eq!(pool[0].reference, "John 3:16");
    let v = validate_csv("QUESTION,Type,REFERENCE,answer\nQ,General,John 3:16,A\n");
    assert!(v.errors.is_empty());
    assert_eq!(v.valid_count, 1);
}

#[test]
fn missing_columns_are_each_reported() {
    let v = validate_csv("Question,Reference\nQ,John 1:1\n");
    assert_eq!(
        v.errors,
        vec![
            "Missing required column: type".to_string(),
            "Missing required column: answer".to_string()
        ]
    );
    assert_eq!(v.valid_count, 0);
}

#[test]
fn list_books_reports_chapter_bounds() {
    let pool = parse_csv(
        "Question,Type,Reference,Answer\nA,General,1 John 4:2,x\nB,General,1 John 2:9,x\nC,General,Acts 7:1,x\n",
    );
    let books = list_books(&pool);
    assert_eq!(books.len(), 2);
    assert_eq!(books[0].name, "1 John");
    assert_eq!((books[0].min_chapter, books[0].max_chapter), (2, 4));
    assert_eq!(books[1].name, "Acts");
    assert_eq!((books[1].min_chapter, books[1].max_chapter), (7, 7));
}

#[test]
fn type_sample_is_drawn_without_repeats() {
    let mut rows = vec!["Question,Type,Reference,Answer".to_string()];
    for i in 0..12 {
        rows.push(format!("G{i},General,John 1:{},a", i + 1));
        rows.push(format!("Q{i},Quote,John 2:{},a", i + 1));
    }
    let pool = parse_csv(&rows.join("\n"));
    let req = GenerateRequest {
        question_type: "Quote".to_string(),
        count: 5,
        situation: None,
        seed: Some(7),
    };
    let got = generate_questions(&pool, &req);
    assert_eq!(got.len(), 5);
    assert!(got.iter().all(|q| q.qtype == "Quote"));
    let mut names: Vec<_> = got.iter().map(|q| q.question.clone()).collect();
    names.sort();
    names.dedup();
    assert_eq!(names.len(), 5);
}

#[test]
fn standard_set_is_empty_when_a_pattern_type_is_missing() {
    let mut rows = vec!["Question,Type,Reference,Answer".to_string()];
    for ch in 1..=8 {
        for (t, ty) in [
            ("Sit", "Situation"),
            ("Quote", "Quote"),
            ("Ref", "Reference"),
            ("Verse", "Verse"),
            ("AT1", "According-To"),
            ("AT2", "According-To"),
            ("G1", "General"),
            ("G2", "General"),
            ("G3", "General"),
        ] {
            rows.push(format!("{t} {ch},{ty},John {ch}:1,a"));
        }
    }
    let pool = parse_csv(&rows.join("\n"));
    let req = GenerateRequest {
        question_type: "standard".to_string(),
        count: 20,
        situation: Some(true),
        seed: Some(3),
    };
    assert!(generate_questions(&pool, &req).is_empty());
}

#[test]
fn snug_twenty_question_pool_always_gives_all_twenty() {
    let rows = [
        ("Situation", "1:1"),
        ("Quote", "1:2"),
        ("Reference", "1:3"),
        ("Verse", "2:1"),
        ("Context", "2:2"),
        ("According-To", "2:3"),
        ("According-To", "3:1"),
        ("According-To", "3:2"),
        ("According-To", "3:3"),
        ("General", "4:1"),
        ("General", "4:2"),
        ("General", "4:3"),
        ("General", "5:1"),
        ("General", "5:2"),
        ("General", "6:1"),
        ("General", "6:2"),
        ("General", "7:1"),
        ("General", "7:2"),
        ("General", "8:1"),
        ("General", "8:2"),
    ];
    let pool: Vec<QuestionRecord> = rows
        .iter()
        .enumerate()
        .map(|(i, (t, r))| QuestionRecord {
            question: format!("Q{}", i + 1),
            qtype: t.to_string(),
            reference: format!("John {r}"),
            answer: "A".to_string(),
        })
        .collect();
    for seed in 0..30u64 {
        let req = GenerateRequest {
            question_type: "standard".to_string(),
            count: 20,
            situation: Some(true),
            seed: Some(seed),
        };
        let got = generate_questions(&pool, &req);
        assert_eq!(got.len(), 20);
        let mut names: Vec<_> = got.iter().map(|q| q.question.clone()).collect();
        names.sort();
        names.dedup();
        assert_eq!(names.len(), 20);
    }
}

#[test]
fn four_full_chapters_always_give_all_twenty() {
    let mut pool = Vec::new();
    for ch in 1..=4 {
        let mut verse = 0;
        let mut add = |t: &str, n: usize, pool: &mut Vec<QuestionRecord>| {
            for _ in 0..n {
                verse += 1;
                pool.push(QuestionRecord {
                    question: format!("{t} {ch}:{verse}"),
                    qtype: t.to_string(),
                    reference: format!("Mark {ch}:{verse}"),
                    answer: "A".to_string(),
                });
            }
        };
        add("Situation", 1, &mut pool);
        add("Quote", 1, &mut pool);
        add("Reference", 1, &mut pool);
        add("Verse", 1, &mut pool);
        add("Context", 1, &mut pool);
        add("According-To", 3, &mut pool);
        add("General", 7, &mut pool);
    }
    assert_eq!(pool.len(), 60);
    for seed in 0..40u64 {
        let req = GenerateRequest {
            question_type: "standard".to_string(),
            count: 20,
            situation: Some(true),
            seed: Some(seed),
        };
        assert_eq!(generate_questions(&pool, &req).len(), 20);
    }
}

fn numbered_pool(n: usize) -> Vec<QuestionRecord> {
    let mut rows = vec!["Question,Type,Reference,Answer".to_string()];
    for i in 0..n {
        rows.push(format!("N{i},General,John 1:{},a", i + 1));
    }
    parse_csv(&rows.join("\n"))
}

#[test]
fn seeded_sample_repeats_and_is_shuffled() {
    let pool = numbered_pool(12);
    let req = GenerateRequest {
        question_type: "all".to_string(),
        count: 12,
        situation: None,
        seed: Some(11),
    };
    let first = generate_questions(&pool, &req);
    let second = generate_questions(&pool, &req);
    assert_eq!(first, second);
    assert_eq!(first.len(), 12);
    assert_ne!(first, pool, "a seeded shuffle of twelve questions keeps the pool order");
    let mut names: Vec<_> = first.iter().map(|q| q.question.clone()).collect();
    names.sort();
    let mut expected: Vec<_> = pool.iter().map(|q| q.question.clone()).collect();
    expected.sort();
    assert_eq!(names, expected);
}

#[test]
fn seeded_sample_prefix_follows_the_same_order() {
    let pool = numbered_pool(12);
    let all = generate_questions(
        &pool,
        &GenerateRequest { question_type: "General".to_string(), count: 12, situation: None, seed: Some(5) },
    );
    let few = generate_questions(
        &pool,
        &GenerateRequest { question_type: "general".to_string(), count: 4, situation: None, seed: Some(5) },
    );
    assert_eq!(few.as_slice(), &all[..4]);
}
