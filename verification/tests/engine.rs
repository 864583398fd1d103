use boolean_retrieval::codec::{decode_model, encode_model};
use boolean_retrieval::model::BooleanModel;
use boolean_retrieval::order::sort_entries_exec;
use boolean_retrieval::postings::{intersect, positional_intersect, union, Document};
use boolean_retrieval::FileEntry;

fn entry(name: &str, text: &str) -> FileEntry {
    FileEntry {
        name: String::from(name),
        content: Some(String::from(text)),
    }
}

fn indexed(files: Vec<FileEntry>) -> BooleanModel {
    let mut m = BooleanModel::new();
    m.index(files);
    m
}

fn example_model() -> BooleanModel {
    indexed(vec![
        entry("a.txt", "cat sat mat"),
        entry("b.txt", "cat ran fast"),
    ])
}

fn ids(docs: &[Document]) -> Vec<u32> {
    docs.iter().map(|d| d.id).collect()
}

#[test]
fn boolean_and_example() {
    let m = example_model();
    let r = m.query_boolean("cat AND mat");
    assert_eq!(ids(&r), vec![1]);
}

#[test]
fn boolean_or_example() {
    let m = example_model();
    let r = m.query_boolean("cat OR fast");
    assert_eq!(ids(&r), vec![1, 2]);
}

#[test]
fn positional_within_window() {
    let m = example_model();
    let r = m.query_positional("cat sat /1");
    assert_eq!(ids(&r), vec![1]);
    // the accepted document carries the second term's positions forward
    assert_eq!(r[0].positions, vec![1]);
}

#[test]
fn positional_outside_window() {
    let m = example_model();
    let r = m.query_positional("cat ran /0");
    assert!(r.is_empty());
}

#[test]
fn ids_follow_name_length_then_lex() {
    // "bb.txt" is longer than "a.txt", so "a.txt" gets id 1 even though it
    // is handed over second; equal lengths fall back to lexicographic order.
    let m = indexed(vec![
        entry("bb.txt", "pepper"),
        entry("a.txt", "salt"),
        entry("cc.txt", "vinegar"),
    ]);
    assert_eq!(m.get_doc(1).unwrap().name, "a.txt");
    assert_eq!(m.get_doc(2).unwrap().name, "bb.txt");
    assert_eq!(m.get_doc(3).unwrap().name, "cc.txt");
}

#[test]
fn sort_entries_orders_by_length_then_lex() {
    let sorted = sort_entries_exec(vec![
        entry("zz", ""),
        entry("b", ""),
        entry("ba", ""),
        entry("a", ""),
    ]);
    let names: Vec<&str> = sorted.iter().map(|e| e.name.as_str()).collect();
    assert_eq!(names, vec!["a", "b", "ba", "zz"]);
}

#[test]
fn unreadable_file_consumes_id_slot() {
    let m = indexed(vec![
        entry("a.txt", "alpha"),
        FileEntry {
            name: String::from("b.txt"),
            content: None,
        },
        entry("c.txt", "gamma"),
    ]);
    assert_eq!(m.get_doc(1).unwrap().name, "a.txt");
    assert!(m.get_doc(2).is_none());
    assert_eq!(m.get_doc(3).unwrap().name, "c.txt");
    // the skipped file contributes no postings
    assert!(m.get_docs("alpha").iter().map(|d| d.id).eq([1]));
    assert!(m.get_docs("gamma").iter().map(|d| d.id).eq([3]));
}

#[test]
fn unknown_term_is_empty_not_error() {
    let m = example_model();
    assert!(m.query_boolean("unicorn").is_empty());
    assert!(m.query_positional("unicorn").is_empty());
    assert!(m.get_docs("unicorn").is_empty());
}

#[test]
fn query_on_empty_model_is_empty() {
    let m = BooleanModel::new();
    assert!(m.query_boolean("cat AND mat").is_empty());
    assert!(m.query_positional("cat sat /2").is_empty());
    assert!(m.get_doc(1).is_none());
}

#[test]
fn stopwords_are_not_indexed() {
    let m = indexed(vec![entry(
        "s.txt",
        "the cat is on all of and to can be as once for at am are has have had up his her in on no we do the mat",
    )]);
    let stopwords = [
        "a", "is", "the", "of", "all", "and", "to", "can", "be", "as", "once", "for", "at", "am",
        "are", "has", "have", "had", "up", "his", "her", "in", "on", "no", "we", "do",
    ];
    for sw in stopwords {
        for te in &m.posting_list {
            assert_ne!(te.term, sw, "stopword indexed as a key");
        }
    }
    // the non-stopword words are indexed, at their filtered-stream positions
    let cat = m.get_docs("cat");
    assert_eq!(cat.len(), 1);
    assert_eq!(cat[0].positions, vec![0]);
    let mat = m.get_docs("mat");
    assert_eq!(mat[0].positions, vec![1]);
}

#[test]
fn positions_index_the_filtered_stream() {
    // "the" and "is" drop out, so "mouse" stands at position 1, not 3
    let m = indexed(vec![entry("t.txt", "the cat is mouse hunting")]);
    assert_eq!(m.get_docs("cat")[0].positions, vec![0]);
    assert_eq!(m.get_docs("mouse")[0].positions, vec![1]);
    assert_eq!(m.get_docs("hunt")[0].positions, vec![2]);
}

#[test]
fn normalization_lowercases_and_strips_punctuation() {
    let m = indexed(vec![entry("n.txt", "Cat, SAT; mat!")]);
    assert_eq!(ids(&m.query_boolean("cat AND sat AND mat")), vec![1]);
}

#[test]
fn short_tokens_are_dropped(){
    let m = indexed(vec![entry("s.txt", "x yz cat")]);
    assert!(m.get_docs("x").is_empty());
    // "yz" has length two and is kept, at filtered position 0
    assert_eq!(m.get_docs("yz")[0].positions, vec![0]);
    assert_eq!(m.get_docs("cat")[0].positions, vec![1]);
}

#[test]
fn stemming_conflates_word_forms() {
    let m = indexed(vec![entry("f.txt", "running runs"), entry("gg.txt", "run")]);
    let r = m.query_boolean("running OR nothing");
    assert_eq!(ids(&r), vec![1, 2]);
    // both occurrences of the stem land in one posting for document 1
    let run = m.get_docs("run");
    assert_eq!(run.len(), 2);
    assert_eq!(run[0].id, 1);
    assert_eq!(run[0].positions, vec![0, 1]);
    assert_eq!(run[1].id, 2);
    assert_eq!(run[1].positions, vec![0]);
}

#[test]
fn repeated_occurrences_extend_one_posting() {
    let m = indexed(vec![entry("r.txt", "dog cat dog dog")]);
    let dog = m.get_docs("dog");
    assert_eq!(dog.len(), 1);
    assert_eq!(dog[0].id, 1);
    assert_eq!(dog[0].positions, vec![0, 2, 3]);
}

#[test]
fn summary_is_first_fifty_normalized_chars() {
    let long = "Abcde ".repeat(20); // 120 characters
    let m = indexed(vec![entry("l.txt", &long), entry("sh.txt", "Tiny text")]);
    let d_short = m.get_doc(2).unwrap();
    let d_long = m.get_doc(1).unwrap();
    assert_eq!(d_long.name, "l.txt");
    assert_eq!(d_long.summary.len(), 50);
    assert_eq!(&d_long.summary, &"abcde ".repeat(20)[..50]);
    assert_eq!(d_long.text, long);
    assert_eq!(d_short.name, "sh.txt");
    assert_eq!(d_short.summary, "tiny text");
}

#[test]
fn boolean_fold_is_left_to_right_without_precedence() {
    let m = indexed(vec![
        entry("a.txt", "red blue"),
        entry("b.txt", "red green"),
        entry("c.txt", "green blue"),
    ]);
    // (red AND green) OR blue = {2} OR {1,3} = {1,2,3}
    assert_eq!(ids(&m.query_boolean("red AND green OR blue")), vec![1, 2, 3]);
    // malformed operator runs degrade silently: AND against the empty
    // running set intersects to nothing
    assert!(m.query_boolean("AND red").is_empty());
    assert_eq!(ids(&m.query_boolean("red OR")), vec![1, 2]);
}

#[test]
fn proximity_window_parsing() {
    let m = indexed(vec![entry("p.txt", "one two three four five")]);
    // distance two under the default window 1: no match
    assert!(m.query_positional("one three").is_empty());
    assert_eq!(ids(&m.query_positional("one three /2")), vec![1]);
    // an unparsable window falls back to 1
    assert_eq!(ids(&m.query_positional("one two /x")), vec![1]);
    assert!(m.query_positional("one three /x").is_empty());
    // the last window token wins
    assert_eq!(ids(&m.query_positional("one three /0 /2")), vec![1]);
}

#[test]
fn positional_carries_next_terms_positions_forward() {
    // with three terms, the second intersection works on the second term's
    // positions, not the first's
    let m = indexed(vec![entry("w.txt", "alpha beta gamma")]);
    assert_eq!(ids(&m.query_positional("alpha beta gamma /1")), vec![1]);
    let r = m.query_positional("alpha beta gamma /1");
    assert_eq!(r[0].positions, vec![2]);
    // gamma is two away from alpha, so without beta the default window fails
    assert!(m.query_positional("alpha gamma /1").is_empty());
}

#[test]
fn merge_primitives_follow_set_semantics() {
    let a = vec![
        Document { id: 1, positions: vec![0] },
        Document { id: 3, positions: vec![1] },
        Document { id: 5, positions: vec![2] },
    ];
    let b = vec![
        Document { id: 2, positions: vec![7] },
        Document { id: 3, positions: vec![8] },
        Document { id: 6, positions: vec![9] },
    ];
    let i = intersect(&a, &b);
    assert_eq!(ids(&i), vec![3]);
    // the intersection carries the second list's entry
    assert_eq!(i[0].positions, vec![8]);
    let u = union(&a, &b);
    assert_eq!(ids(&u), vec![1, 2, 3, 5, 6]);
    // a shared id carries the second list's entry
    assert_eq!(u[2].positions, vec![8]);
    let p = positional_intersect(&a, &b, 7);
    assert_eq!(ids(&p), vec![3]);
    assert_eq!(p[0].positions, vec![8]);
    let p0 = positional_intersect(&a, &b, 6);
    assert!(p0.is_empty());
}

#[test]
fn indexing_is_deterministic() {
    let files = || {
        vec![
            entry("a.txt", "cat sat mat"),
            entry("b.txt", "cat ran fast"),
            FileEntry { name: String::from("x.txt"), content: None },
        ]
    };
    let m1 = indexed(files());
    let m2 = indexed(files());
    assert_eq!(encode_model(&m1), encode_model(&m2));
}

#[test]
fn reindexing_replaces_all_prior_contents() {
    let mut m = example_model();
    m.index(vec![entry("z.txt", "zebra")]);
    assert!(m.query_boolean("cat").is_empty());
    assert_eq!(ids(&m.query_boolean("zebra")), vec![1]);
    assert!(m.get_doc(2).is_none());
}

#[test]
fn snapshot_round_trip_reproduces_the_model() {
    let m = example_model();
    let words = encode_model(&m);
    let m2 = decode_model(&words).expect("a snapshot of a model decodes");
    assert_eq!(encode_model(&m2), words);
    assert_eq!(ids(&m2.query_boolean("cat AND mat")), vec![1]);
    assert_eq!(ids(&m2.query_boolean("cat OR fast")), vec![1, 2]);
    assert_eq!(m2.get_doc(1).unwrap().name, "a.txt");
    assert_eq!(m2.get_doc(1).unwrap().text, "cat sat mat");
    assert_eq!(m2.get_doc(2).unwrap().summary, "cat ran fast");
}

#[test]
fn snapshot_of_empty_model_round_trips() {
    let m = BooleanModel::new();
    let words = encode_model(&m);
    let m2 = decode_model(&words).expect("an empty snapshot decodes");
    assert!(m2.posting_list.is_empty());
    assert!(m2.documents.is_empty());
}

#[test]
fn garbage_snapshots_are_rejected() {
    assert!(decode_model(&vec![]).is_none());
    // claims one term but holds nothing more
    assert!(decode_model(&vec![1]).is_none());
    // trailing data is rejected
    let m = BooleanModel::new();
    let mut words = encode_model(&m);
    words.push(0);
    assert!(decode_model(&words).is_none());
    // an invalid character code point is rejected
    assert!(decode_model(&vec![1, 1, 0xD800, 0, 0]).is_none());
}

#[test]
fn query_matches_merge_of_lookups() {
    let m = indexed(vec![
        entry("a.txt", "cat sat mat"),
        entry("b.txt", "cat ran fast"),
        entry("cc.txt", "mat makers"),
    ]);
    let cat = m.get_docs("cat");
    let mat = m.get_docs("mat");
    let and_query = m.query_boolean("cat AND mat");
    let or_query = m.query_boolean("cat OR mat");
    assert_eq!(ids(&and_query), ids(&intersect(&cat, &mat)));
    assert_eq!(ids(&or_query), ids(&union(&cat, &mat)));
}

#[test]
fn stemmer_wrapper_reduces_words() {
    // rust-stemmers' own documented example
    let m = indexed(vec![entry("d.txt", "fruitlessly")]);
    assert_eq!(m.posting_list.len(), 1);
    assert_eq!(m.posting_list[0].term, "fruitless");
}
