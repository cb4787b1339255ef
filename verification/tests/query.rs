use unicode_tokenizer::TantivyFuzzyField;
use unicode_tokenizer::TantivySearchQuery;

#[test]
fn search_query_carries_fields_through() {
    let query = TantivySearchQuery {
        query_str: String::from("tax payer"),
        default_fields: vec![String::from("merchantName"), String::from("notes")],
        fuzzy_fields: vec![TantivyFuzzyField {
            field_name: String::from("merchantName"),
            prefix: true,
            distance: 1,
            transpose_cost_one: false,
        }],
        top_doc_limit: 10,
        top_doc_offset: 0,
    };
    let copy = query.clone();
    assert_eq!(copy.query_str, "tax payer");
    assert_eq!(copy.default_fields.len(), 2);
    assert_eq!(copy.fuzzy_fields.len(), 1);
    assert_eq!(copy.fuzzy_fields[0].field_name, "merchantName");
    assert!(copy.fuzzy_fields[0].prefix);
    assert_eq!(copy.fuzzy_fields[0].distance, 1);
    assert!(!copy.fuzzy_fields[0].transpose_cost_one);
    assert_eq!(copy.top_doc_limit, 10);
    assert_eq!(copy.top_doc_offset, 0);
}
