use pulsar_web::routes::{match_dynamic, parse_params, parse_slug, segment_is_param, Route};

fn s(text: &str) -> String {
    text.to_string()
}

#[test]
fn static_pattern_matches_itself() {
    assert!(match_dynamic(s("/a/b"), s("/a/b")));
    assert!(match_dynamic(s("/"), s("/")));
    assert!(match_dynamic(s(""), s("")));
}

#[test]
fn parameter_matches_any_segment() {
    assert!(match_dynamic(s("/user/alice"), s("/user/<name>")));
    assert!(match_dynamic(s("/user/42"), s("/user/<name>")));
}

#[test]
fn parameter_matches_an_empty_segment() {
    assert!(match_dynamic(s("/user/"), s("/user/<name>")));
    assert!(match_dynamic(s("//"), s("/<x>/")));
}

#[test]
fn empty_segments_are_compared_like_any_other() {
    assert!(!match_dynamic(s("/a/"), s("/a")));
    assert!(!match_dynamic(s("//a"), s("/a")));
    assert!(!match_dynamic(s("/a//b"), s("/a/b")));
    assert!(match_dynamic(s("/a//b"), s("/a//b")));
    assert!(!match_dynamic(s("/x/"), s("/<x>/y")));
}

#[test]
fn segment_count_mismatch_never_matches() {
    assert!(!match_dynamic(s("/user/alice/extra"), s("/user/<name>")));
    assert!(!match_dynamic(s("/user"), s("/user/<name>")));
    assert!(!match_dynamic(s("/a/b/c"), s("/<x>/<y>")));
    assert!(!match_dynamic(s("/a"), s("/<x>/<y>/<z>")));
}

#[test]
fn literal_segment_must_be_equal() {
    assert!(!match_dynamic(s("/users/alice"), s("/user/<name>")));
    assert!(!match_dynamic(s("/User/alice"), s("/user/<name>")));
}

#[test]
fn what_counts_as_a_parameter() {
    assert!(segment_is_param("<name>"));
    assert!(segment_is_param("<>"));
    assert!(segment_is_param("<<a>>"));
    assert!(!segment_is_param("<name"));
    assert!(!segment_is_param("name>"));
    assert!(!segment_is_param("<"));
    assert!(!segment_is_param(">"));
    assert!(!segment_is_param(""));
    assert!(!segment_is_param("name"));
}

#[test]
fn slug_binds_the_segment() {
    let slugs = parse_slug(s("/user/alice"), s("/user/<name>"));
    assert_eq!(slugs.len(), 1);
    assert_eq!(slugs.get("name"), Some(&s("alice")));
}

#[test]
fn slug_binds_every_parameter() {
    let slugs = parse_slug(s("/shop/7/item/blue"), s("/shop/<id>/item/<colour>"));
    assert_eq!(slugs.len(), 2);
    assert_eq!(slugs.get("id"), Some(&s("7")));
    assert_eq!(slugs.get("colour"), Some(&s("blue")));
    assert_eq!(slugs.key_at(0), &s("id"));
    assert_eq!(slugs.key_at(1), &s("colour"));
}

#[test]
fn slug_of_a_repeated_name_is_the_later_segment() {
    let slugs = parse_slug(s("/a/b"), s("/<x>/<x>"));
    assert_eq!(slugs.len(), 1);
    assert_eq!(slugs.get("x"), Some(&s("b")));
}

#[test]
fn slug_name_loses_all_its_brackets() {
    let slugs = parse_slug(s("/v"), s("/<<name>>"));
    assert_eq!(slugs.get("name"), Some(&s("v")));
    let slugs = parse_slug(s("/v"), s("/<>"));
    assert_eq!(slugs.get(""), Some(&s("v")));
}

#[test]
fn slug_of_a_missing_segment_is_empty() {
    let slugs = parse_slug(s("/a"), s("/a/<x>"));
    assert_eq!(slugs.get("x"), Some(&s("")));
}

#[test]
fn slug_is_the_segment_as_written() {
    let slugs = parse_slug(s("/user/ alice "), s("/user/<name>"));
    assert_eq!(slugs.get("name"), Some(&s(" alice ")));
}

#[test]
fn pattern_without_parameters_binds_nothing() {
    let slugs = parse_slug(s("/a/b"), s("/a/b"));
    assert!(slugs.is_empty());
}

#[test]
fn params_of_a_query() {
    let params = parse_params(s("/user/alice?tab=2&sort=up"));
    assert_eq!(params.len(), 2);
    assert_eq!(params.get("tab"), Some(&s("2")));
    assert_eq!(params.get("sort"), Some(&s("up")));
}

#[test]
fn params_are_trimmed() {
    let params = parse_params(s("/p? a = 1 &b= 2"));
    assert_eq!(params.get("a"), Some(&s("1")));
    assert_eq!(params.get("b"), Some(&s("2")));
}

#[test]
fn param_without_a_value_is_empty() {
    let params = parse_params(s("/p?flag"));
    assert_eq!(params.len(), 1);
    assert_eq!(params.get("flag"), Some(&s("")));
}

#[test]
fn param_value_ends_at_the_second_equals_sign() {
    let params = parse_params(s("/p?a=b=c"));
    assert_eq!(params.get("a"), Some(&s("b")));
}

#[test]
fn later_param_replaces_the_earlier() {
    let params = parse_params(s("/p?a=1&a=2"));
    assert_eq!(params.len(), 1);
    assert_eq!(params.get("a"), Some(&s("2")));
}

#[test]
fn query_ends_at_the_second_question_mark() {
    let params = parse_params(s("/p?a=1?b=2"));
    assert_eq!(params.len(), 1);
    assert_eq!(params.get("a"), Some(&s("1")));
    assert_eq!(params.get("b"), None);
}

#[test]
fn path_without_a_query_has_the_empty_parameter() {
    let params = parse_params(s("/user/alice"));
    assert_eq!(params.len(), 1);
    assert_eq!(params.get(""), Some(&s("")));
}

#[test]
fn route_parse_reads_everything() {
    let route = Route::parse(s("/user/alice?tab=2"), s("/user/<name>"));
    assert_eq!(route.path, s("/user/alice?tab=2"));
    assert_eq!(route.route, s("/user/<name>"));
    assert_eq!(route.routes, vec![s(""), s("user"), s("alice?tab=2")]);
    assert_eq!(route.slugs.get("name"), Some(&s("alice?tab=2")));
    assert_eq!(route.params.len(), 1);
    assert_eq!(route.params.get("tab"), Some(&s("2")));
}

#[test]
fn route_clone_keeps_everything() {
    let route = Route::parse(s("/a/b?x=1"), s("/a/<y>"));
    let copy = route.clone();
    assert_eq!(copy.path, route.path);
    assert_eq!(copy.route, route.route);
    assert_eq!(copy.routes, route.routes);
    assert_eq!(copy.slugs.get("y"), Some(&s("b?x=1")));
    assert_eq!(copy.params.get("x"), Some(&s("1")));
}
