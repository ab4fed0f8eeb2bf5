use claims_engine::cache::{ImplicitScopeCache, Schema, SchemaCache, SchemaId, ScopeCache};
use claims_engine::config::{collect_values, Claims, ScopeConfig};
use claims_engine::json::JsonValue;
use claims_engine::pointer::Pointer;
use claims_engine::rules::{ImplicitScope, ScopeConfiguration, ScopeExplicitMapping};
use claims_engine::schema::{SchemaError, SchemaNode, TraitConfiguration};
use claims_engine::scope::{Collect, Scope, SessionData};

fn key(s: &str) -> String {
    s.to_owned()
}

fn text(s: &str) -> JsonValue {
    JsonValue::Text(s.to_owned())
}

fn object(entries: Vec<(&str, JsonValue)>) -> JsonValue {
    let mut out: Vec<(String, JsonValue)> = Vec::new();
    for (k, v) in entries {
        out.push((k.to_owned(), v));
    }
    JsonValue::Object(out)
}

fn array(items: Vec<JsonValue>) -> JsonValue {
    JsonValue::Array(items)
}

fn consent_annotation(scopes: Vec<&str>) -> JsonValue {
    let mut items: Vec<JsonValue> = Vec::new();
    for s in scopes {
        items.push(text(s));
    }
    object(vec![("scopes", array(items))])
}

fn scope(s: &str) -> Scope {
    Scope::new(s.to_owned())
}

fn single_pointer_text(index: &ImplicitScopeCache, name: &str) -> Vec<String> {
    let s = scope(name);
    let pointers = index.get(&s).expect("scope should be indexed");
    pointers.iter().map(|p| p.to_text()).collect()
}

/// Scenario: one property annotated with one scope yields the index
/// entry `email -> ["/email"]`.
#[test]
fn scan_single_annotated_property() {
    let schema_json = object(vec![(
        "properties",
        object(vec![(
            "email",
            object(vec![("indietyp/consent", consent_annotation(vec!["email"]))]),
        )]),
    )]);
    let node = SchemaNode::parse(&schema_json).expect("schema should parse");
    let index = ImplicitScope::find(&key("indietyp/consent"), &node, Vec::new());
    assert_eq!(single_pointer_text(&index, "email"), vec!["/email".to_owned()]);
}

/// Scanning the same schema twice yields identical indices.
#[test]
fn scan_is_repeatable() {
    let schema_json = object(vec![(
        "properties",
        object(vec![
            (
                "email",
                object(vec![("indietyp/consent", consent_annotation(vec!["email", "profile"]))]),
            ),
            (
                "name",
                object(vec![("indietyp/consent", consent_annotation(vec!["profile"]))]),
            ),
        ]),
    )]);
    let node = SchemaNode::parse(&schema_json).expect("schema should parse");
    let first = ImplicitScope::find(&key("indietyp/consent"), &node, Vec::new());
    let second = ImplicitScope::find(&key("indietyp/consent"), &node, Vec::new());
    assert_eq!(first, second);
}

/// A malformed annotation is skipped; sibling nodes still contribute.
#[test]
fn malformed_annotation_is_skipped() {
    let schema_json = object(vec![(
        "properties",
        object(vec![
            ("bad", object(vec![("indietyp/consent", text("nonsense"))])),
            (
                "email",
                object(vec![("indietyp/consent", consent_annotation(vec!["email"]))]),
            ),
        ]),
    )]);
    let node = SchemaNode::parse(&schema_json).expect("schema should parse");
    let index = ImplicitScope::find(&key("indietyp/consent"), &node, Vec::new());
    assert!(index.get(&scope("bad")).is_none());
    assert_eq!(single_pointer_text(&index, "email"), vec!["/email".to_owned()]);
}

/// Merging unions pointer lists per scope: left operand's pointers
/// first, nothing dropped.
#[test]
fn merge_unions_pointer_lists() {
    let mut a = ImplicitScopeCache::new();
    a.insert(scope("s1"), Pointer::parse("/a").unwrap());
    let mut b = ImplicitScopeCache::new();
    b.insert(scope("s1"), Pointer::parse("/b").unwrap());
    b.insert(scope("s2"), Pointer::parse("/c").unwrap());
    a.merge(b);
    assert_eq!(
        single_pointer_text(&a, "s1"),
        vec!["/a".to_owned(), "/b".to_owned()]
    );
    assert_eq!(single_pointer_text(&a, "s2"), vec!["/c".to_owned()]);
}

/// Collect policies over three values: First and Any take the first,
/// Last the third, All the array of all three.
#[test]
fn collect_policies_three_values() {
    let vals = || vec![text("v1"), text("v2"), text("v3")];
    assert_eq!(collect_values(Collect::First, vals()), text("v1"));
    assert_eq!(collect_values(Collect::Any, vals()), text("v1"));
    assert_eq!(collect_values(Collect::Last, vals()), text("v3"));
    assert_eq!(
        collect_values(Collect::All, vals()),
        array(vec![text("v1"), text("v2"), text("v3")])
    );
}

/// Collect policies over no values: First, Any and Last yield null,
/// All the empty array.
#[test]
fn collect_policies_no_values() {
    assert_eq!(collect_values(Collect::First, vec![]), JsonValue::Null);
    assert_eq!(collect_values(Collect::Any, vec![]), JsonValue::Null);
    assert_eq!(collect_values(Collect::Last, vec![]), JsonValue::Null);
    assert_eq!(collect_values(Collect::All, vec![]), array(vec![]));
}

fn email_schema_node() -> SchemaNode {
    let schema_json = object(vec![(
        "properties",
        object(vec![(
            "email",
            object(vec![("indietyp/consent", consent_annotation(vec!["email"]))]),
        )]),
    )]);
    SchemaNode::parse(&schema_json).expect("schema should parse")
}

/// Scenario: an implicit First rule emits the resolved trait value into
/// both token claim maps under the scope's name.
#[test]
fn implicit_rule_resolves_email() {
    let node = email_schema_node();
    let keyword = key("indietyp/consent");
    let index = ImplicitScope::find(&keyword, &node, Vec::new());
    let mut cache = ScopeCache::new(index);
    let config = ScopeConfig::from_root(&keyword, &node, &mut cache, false);
    let traits = object(vec![("email", text("a@example.com"))]);
    let claims = config.resolve_all(&traits, &cache, &vec![scope("email")]);
    let expected = object(vec![("email", text("a@example.com"))]);
    assert_eq!(claims.id_token, expected);
    assert_eq!(claims.access_token, expected);
}

/// Scenario: an explicit object mapping rebuilds `{"full": "Ada"}` from
/// the pointer `/name/first`.
#[test]
fn explicit_mapping_resolves_object() {
    let mapping_json = object(vec![
        ("type", text("object")),
        (
            "properties",
            object(vec![(
                "full",
                object(vec![("type", text("path")), ("$ref", text("/name/first"))]),
            )]),
        ),
    ]);
    let mapping = ScopeExplicitMapping::parse(&mapping_json).expect("mapping should parse");
    let traits = object(vec![("name", object(vec![("first", text("Ada"))]))]);
    let resolved = mapping.resolve(&traits);
    assert_eq!(resolved, object(vec![("full", text("Ada"))]));
}

/// An unresolvable path inside an explicit mapping contributes null.
#[test]
fn explicit_mapping_absent_path_is_null() {
    let mapping_json = object(vec![
        ("type", text("tuple")),
        (
            "prefixItems",
            array(vec![object(vec![("type", text("path")), ("$ref", text("/missing"))])]),
        ),
    ]);
    let mapping = ScopeExplicitMapping::parse(&mapping_json).expect("mapping should parse");
    let traits = object(vec![("name", text("Ada"))]);
    assert_eq!(mapping.resolve(&traits), array(vec![JsonValue::Null]));
}

/// Scenario: with direct mapping on, a first-level property without a
/// declared scope gets a synthesized First rule and a one-token
/// pointer.
#[test]
fn direct_mapping_synthesizes_rule() {
    let schema_json = object(vec![("properties", object(vec![("age", object(vec![]))]))]);
    let node = SchemaNode::parse(&schema_json).expect("schema should parse");
    let keyword = key("indietyp/consent");
    let index = ImplicitScope::find(&keyword, &node, Vec::new());
    let mut cache = ScopeCache::new(index);
    let config = ScopeConfig::from_root(&keyword, &node, &mut cache, true);
    let rule = config.find_scope(&scope("age")).expect("age rule should exist");
    let expected = ScopeConfiguration::Implicit(ImplicitScope {
        collect: Collect::First,
        session_data: SessionData {
            id_token: Some("age".to_owned()),
            access_token: Some("age".to_owned()),
        },
    });
    assert_eq!(rule, &expected);
    assert_eq!(single_pointer_text(&cache.implicit_scopes, "age"), vec!["/age".to_owned()]);
}

/// Without direct mapping, no rule is synthesized for a bare property.
#[test]
fn no_direct_mapping_without_flag() {
    let schema_json = object(vec![("properties", object(vec![("age", object(vec![]))]))]);
    let node = SchemaNode::parse(&schema_json).expect("schema should parse");
    let keyword = key("indietyp/consent");
    let index = ImplicitScope::find(&keyword, &node, Vec::new());
    let mut cache = ScopeCache::new(index);
    let config = ScopeConfig::from_root(&keyword, &node, &mut cache, false);
    assert!(config.find_scope(&scope("age")).is_none());
}

fn declared_rule_json(collect: &str, claim: &str) -> JsonValue {
    object(vec![
        ("type", text("implicit")),
        ("collect", text(collect)),
        (
            "sessionData",
            object(vec![("idToken", text(claim)), ("accessToken", text(claim))]),
        ),
    ])
}

/// Precedence: a declared rule survives both default passes unchanged.
#[test]
fn declared_rule_is_never_overwritten() {
    let schema_json = object(vec![
        (
            "indietyp/consent",
            object(vec![(
                "scopes",
                object(vec![("email", declared_rule_json("all", "mail"))]),
            )]),
        ),
        (
            "properties",
            object(vec![(
                "email",
                object(vec![("indietyp/consent", consent_annotation(vec!["email"]))]),
            )]),
        ),
    ]);
    let node = SchemaNode::parse(&schema_json).expect("schema should parse");
    let keyword = key("indietyp/consent");
    let index = ImplicitScope::find(&keyword, &node, Vec::new());
    let mut cache = ScopeCache::new(index);
    let config = ScopeConfig::from_root(&keyword, &node, &mut cache, true);
    let rule = config.find_scope(&scope("email")).expect("email rule should exist");
    let expected = ScopeConfiguration::Implicit(ImplicitScope {
        collect: Collect::All,
        session_data: SessionData {
            id_token: Some("mail".to_owned()),
            access_token: Some("mail".to_owned()),
        },
    });
    assert_eq!(rule, &expected);
}

/// A scope in the plan but absent from the requested set contributes no
/// claim.
#[test]
fn unrequested_scope_is_filtered() {
    let schema_json = object(vec![(
        "properties",
        object(vec![
            (
                "email",
                object(vec![("indietyp/consent", consent_annotation(vec!["email"]))]),
            ),
            (
                "age",
                object(vec![("indietyp/consent", consent_annotation(vec!["age"]))]),
            ),
        ]),
    )]);
    let node = SchemaNode::parse(&schema_json).expect("schema should parse");
    let keyword = key("indietyp/consent");
    let index = ImplicitScope::find(&keyword, &node, Vec::new());
    let mut cache = ScopeCache::new(index);
    let config = ScopeConfig::from_root(&keyword, &node, &mut cache, false);
    let traits = object(vec![("email", text("a@example.com")), ("age", text("41"))]);
    let claims = config.resolve_all(&traits, &cache, &vec![scope("email")]);
    let expected = object(vec![("email", text("a@example.com"))]);
    assert_eq!(claims.id_token, expected);
    assert_eq!(claims.access_token, expected);
}

/// Scenario: an empty requested set yields empty claims whatever the
/// plan holds.
#[test]
fn empty_request_yields_empty_claims() {
    let node = email_schema_node();
    let keyword = key("indietyp/consent");
    let index = ImplicitScope::find(&keyword, &node, Vec::new());
    let mut cache = ScopeCache::new(index);
    let config = ScopeConfig::from_root(&keyword, &node, &mut cache, false);
    let traits = object(vec![("email", text("a@example.com"))]);
    let claims: Claims = config.resolve_all(&traits, &cache, &vec![]);
    assert_eq!(claims.id_token, object(vec![]));
    assert_eq!(claims.access_token, object(vec![]));
}

/// A requested scope the plan does not know contributes nothing.
#[test]
fn unknown_requested_scope_contributes_nothing() {
    let node = email_schema_node();
    let keyword = key("indietyp/consent");
    let index = ImplicitScope::find(&keyword, &node, Vec::new());
    let mut cache = ScopeCache::new(index);
    let config = ScopeConfig::from_root(&keyword, &node, &mut cache, false);
    let traits = object(vec![("email", text("a@example.com"))]);
    let claims = config.resolve_all(&traits, &cache, &vec![scope("unknown")]);
    assert_eq!(claims.id_token, object(vec![]));
    assert_eq!(claims.access_token, object(vec![]));
}

/// A scope whose pointer does not resolve falls back to null under
/// First.
#[test]
fn unresolvable_pointer_gives_null() {
    let node = email_schema_node();
    let keyword = key("indietyp/consent");
    let index = ImplicitScope::find(&keyword, &node, Vec::new());
    let mut cache = ScopeCache::new(index);
    let config = ScopeConfig::from_root(&keyword, &node, &mut cache, false);
    let traits = object(vec![("other", text("x"))]);
    let claims = config.resolve_all(&traits, &cache, &vec![scope("email")]);
    assert_eq!(claims.id_token, object(vec![("email", JsonValue::Null)]));
}

/// The annotation parser accepts `{"scopes": [...]}` and rejects other
/// shapes.
#[test]
fn trait_configuration_parse() {
    let good = consent_annotation(vec!["a", "b"]);
    let tc = TraitConfiguration::parse(&good).expect("annotation should parse");
    let names: Vec<&str> = tc.scopes.iter().map(|s| s.as_str()).collect();
    assert_eq!(names, vec!["a", "b"]);
    assert!(TraitConfiguration::parse(&text("nope")).is_none());
    assert!(TraitConfiguration::parse(&object(vec![("scopes", text("x"))])).is_none());
    assert!(
        TraitConfiguration::parse(&object(vec![("scopes", array(vec![JsonValue::Bool(true)]))]))
            .is_none()
    );
}

/// Session data parsing: absent and null claim names mean "do not
/// emit"; a non-string claim name is malformed.
#[test]
fn session_data_parse() {
    let sd = SessionData::parse(&object(vec![("idToken", text("e"))])).unwrap();
    assert_eq!(sd.id_token, Some("e".to_owned()));
    assert_eq!(sd.access_token, None);
    let sd2 = SessionData::parse(&object(vec![
        ("idToken", JsonValue::Null),
        ("accessToken", text("a")),
    ]))
    .unwrap();
    assert_eq!(sd2.id_token, None);
    assert_eq!(sd2.access_token, Some("a".to_owned()));
    assert!(SessionData::parse(&object(vec![("idToken", JsonValue::Bool(true))])).is_none());
    assert!(SessionData::parse(&text("x")).is_none());
}

/// A collect policy parses from its four names and nothing else.
#[test]
fn collect_parse() {
    assert_eq!(Collect::parse(&text("first")), Some(Collect::First));
    assert_eq!(Collect::parse(&text("last")), Some(Collect::Last));
    assert_eq!(Collect::parse(&text("any")), Some(Collect::Any));
    assert_eq!(Collect::parse(&text("all")), Some(Collect::All));
    assert_eq!(Collect::parse(&text("weird")), None);
    assert_eq!(Collect::parse(&JsonValue::Null), None);
}

/// An unparseable root configuration yields an empty starting plan; the
/// default passes still run.
#[test]
fn bad_root_configuration_falls_back_to_defaults() {
    let schema_json = object(vec![
        ("indietyp/consent", text("garbage")),
        (
            "properties",
            object(vec![(
                "email",
                object(vec![("indietyp/consent", consent_annotation(vec!["email"]))]),
            )]),
        ),
    ]);
    let node = SchemaNode::parse(&schema_json).expect("schema should parse");
    let keyword = key("indietyp/consent");
    let index = ImplicitScope::find(&keyword, &node, Vec::new());
    let mut cache = ScopeCache::new(index);
    let config = ScopeConfig::from_root(&keyword, &node, &mut cache, false);
    assert!(config.find_scope(&scope("email")).is_some());
}

/// Pointer text round trip, including the two escapes.
#[test]
fn pointer_parse_and_render() {
    let p = Pointer::parse("/a~1b/c~0d").expect("pointer should parse");
    assert_eq!(p.to_text(), "/a~1b/c~0d");
    assert!(Pointer::parse("missing-slash").is_none());
    assert!(Pointer::parse("/bad~escape").is_none());
    assert_eq!(Pointer::parse("").unwrap().to_text(), "");
}

/// Pointer resolution: object members by name, array elements by
/// decimal index, root by the empty pointer.
#[test]
fn pointer_resolution() {
    let doc = object(vec![(
        "items",
        array(vec![text("zero"), text("one"), text("two")]),
    )]);
    let p = Pointer::parse("/items/1").unwrap();
    assert_eq!(p.resolve(&doc), Some(&text("one")));
    assert!(Pointer::parse("/items/3").unwrap().resolve(&doc).is_none());
    assert!(Pointer::parse("/items/01").unwrap().resolve(&doc).is_none());
    assert!(Pointer::parse("/items/-").unwrap().resolve(&doc).is_none());
    assert!(Pointer::parse("/absent").unwrap().resolve(&doc).is_none());
    assert_eq!(Pointer::parse("").unwrap().resolve(&doc), Some(&doc));
    let huge = Pointer::parse("/items/99999999999999999999999999").unwrap();
    assert!(huge.resolve(&doc).is_none());
}

/// Rendering escapes `~` and `/` inside tokens.
#[test]
fn pointer_render_escapes_tokens() {
    let p = Pointer::from_tokens(vec!["a/b".to_owned(), "c~d".to_owned()]);
    assert_eq!(p.to_text(), "/a~1b/c~0d");
    assert_eq!(Pointer::root().to_text(), "");
}

/// Two scopes writing the same claim name: the later one, in plan
/// order, wins.
#[test]
fn later_claim_write_wins() {
    let schema_json = object(vec![(
        "indietyp/consent",
        object(vec![(
            "scopes",
            object(vec![
                (
                    "first_scope",
                    object(vec![
                        ("type", text("explicit")),
                        (
                            "mapping",
                            object(vec![("type", text("path")), ("$ref", text("/a"))]),
                        ),
                        (
                            "sessionData",
                            object(vec![("idToken", text("shared"))]),
                        ),
                    ]),
                ),
                (
                    "second_scope",
                    object(vec![
                        ("type", text("explicit")),
                        (
                            "mapping",
                            object(vec![("type", text("path")), ("$ref", text("/b"))]),
                        ),
                        (
                            "sessionData",
                            object(vec![("idToken", text("shared"))]),
                        ),
                    ]),
                ),
            ]),
        )]),
    )]);
    let node = SchemaNode::parse(&schema_json).expect("schema should parse");
    let keyword = key("indietyp/consent");
    let index = ImplicitScope::find(&keyword, &node, Vec::new());
    let mut cache = ScopeCache::new(index);
    let config = ScopeConfig::from_root(&keyword, &node, &mut cache, false);
    let traits = object(vec![("a", text("one")), ("b", text("two"))]);
    let claims = config.resolve_all(
        &traits,
        &cache,
        &vec![scope("first_scope"), scope("second_scope")],
    );
    assert_eq!(claims.id_token, object(vec![("shared", text("two"))]));
    assert_eq!(claims.access_token, object(vec![]));
}

/// A compiled schema document must be an object holding
/// `properties.traits`.
#[test]
fn compile_rejects_malformed_documents() {
    let keyword = key("indietyp/consent");
    assert_eq!(
        Schema::compile(&keyword, &text("nope"), false).unwrap_err(),
        SchemaError::IdentitySchemaMalformed
    );
    assert_eq!(
        Schema::compile(&keyword, &object(vec![]), false).unwrap_err(),
        SchemaError::IdentitySchemaMalformed
    );
    let no_traits = object(vec![("properties", object(vec![]))]);
    assert_eq!(
        Schema::compile(&keyword, &no_traits, false).unwrap_err(),
        SchemaError::IdentitySchemaMalformed
    );
}

fn identity_schema_document() -> JsonValue {
    object(vec![(
        "properties",
        object(vec![(
            "traits",
            object(vec![(
                "properties",
                object(vec![(
                    "email",
                    object(vec![("indietyp/consent", consent_annotation(vec!["email"]))]),
                )]),
            )]),
        )]),
    )])
}

/// End to end: compile an identity schema document and resolve claims.
#[test]
fn compile_and_resolve_end_to_end() {
    let keyword = key("indietyp/consent");
    let schema = Schema::compile(&keyword, &identity_schema_document(), false)
        .expect("document should compile");
    let traits = object(vec![("email", text("a@example.com"))]);
    let claims = schema.resolve(&traits, &vec![scope("email")]);
    let expected = object(vec![("email", text("a@example.com"))]);
    assert_eq!(claims.id_token, expected);
    assert_eq!(claims.access_token, expected);
}

/// Scenario: two builds of the same previously-unseen schema id are
/// structurally equal, and storing both leaves one sound entry.
#[test]
fn redundant_builds_agree() {
    let keyword = key("indietyp/consent");
    let doc = identity_schema_document();
    let first = Schema::compile(&keyword, &doc, false).unwrap();
    let second = Schema::compile(&keyword, &doc, false).unwrap();
    assert_eq!(first, second);
    let mut cache = SchemaCache::new(keyword, false);
    let id = SchemaId::new("default".to_owned());
    assert!(!cache.contains_key(&id));
    cache.insert(id.clone(), first);
    cache.insert(id.clone(), second);
    assert!(cache.contains_key(&id));
    let stored = cache.get(&id).expect("entry should exist");
    let traits = object(vec![("email", text("a@example.com"))]);
    let claims = stored.resolve(&traits, &vec![scope("email")]);
    assert_eq!(claims.id_token, object(vec![("email", text("a@example.com"))]));
    let again = cache.get_or_panic(&id);
    assert_eq!(again.resolve(&traits, &vec![scope("email")]).id_token,
        object(vec![("email", text("a@example.com"))]));
}

/// Two concurrent first-time lookups of the same schema id both
/// complete, redundantly building equal schemas; the store stays sound
/// whichever insertion lands last.
#[test]
fn concurrent_first_lookups_agree() {
    let runtime = tokio::runtime::Builder::new_multi_thread()
        .worker_threads(2)
        .build()
        .expect("runtime should build");
    runtime.block_on(async {
        let cache = std::sync::Arc::new(tokio::sync::RwLock::new(SchemaCache::new(
            key("indietyp/consent"),
            false,
        )));
        let doc = identity_schema_document();
        let mut handles = Vec::new();
        for _ in 0..2 {
            let cache = std::sync::Arc::clone(&cache);
            let doc = doc.clone();
            handles.push(tokio::spawn(async move {
                let keyword = { cache.read().await.keyword().clone() };
                let schema = Schema::compile(&keyword, &doc, false)
                    .expect("document should compile");
                {
                    let mut lock = cache.write().await;
                    lock.insert(SchemaId::new("default".to_owned()), schema);
                }
                let lock = cache.read().await;
                let stored = lock
                    .get(&SchemaId::new("default".to_owned()))
                    .expect("entry should exist");
                let traits = object(vec![("email", text("a@example.com"))]);
                stored.resolve(&traits, &vec![scope("email")]).id_token
            }));
        }
        for handle in handles {
            let id_token = handle.await.expect("task should finish");
            assert_eq!(id_token, object(vec![("email", text("a@example.com"))]));
        }
    });
}

/// The schema cache misses an unknown id.
#[test]
fn cache_miss_is_none() {
    let cache = SchemaCache::new(key("indietyp/consent"), true);
    assert!(cache.get(&SchemaId::new("unknown".to_owned())).is_none());
    assert_eq!(cache.keyword().as_str(), "indietyp/consent");
    assert!(cache.direct_mapping());
}

/// Scope and schema identities expose their names.
#[test]
fn identifiers_expose_names() {
    assert_eq!(scope("email").as_str(), "email");
    assert_eq!(SchemaId::new("s1".to_owned()).as_str(), "s1");
    assert_eq!(claims_engine::Error.message(), "application error");
}

/// Later pointers for the same scope keep registration order under All.
#[test]
fn all_policy_keeps_pointer_order() {
    let schema_json = object(vec![
        (
            "indietyp/consent",
            object(vec![(
                "scopes",
                object(vec![("ids", declared_rule_json("all", "ids"))]),
            )]),
        ),
        (
            "properties",
            object(vec![
                (
                    "a",
                    object(vec![("indietyp/consent", consent_annotation(vec!["ids"]))]),
                ),
                (
                    "b",
                    object(vec![("indietyp/consent", consent_annotation(vec!["ids"]))]),
                ),
            ]),
        ),
    ]);
    let node = SchemaNode::parse(&schema_json).expect("schema should parse");
    let keyword = key("indietyp/consent");
    let index = ImplicitScope::find(&keyword, &node, Vec::new());
    let mut cache = ScopeCache::new(index);
    let config = ScopeConfig::from_root(&keyword, &node, &mut cache, false);
    let traits = object(vec![("a", text("one")), ("b", text("two"))]);
    let claims = config.resolve_all(&traits, &cache, &vec![scope("ids")]);
    assert_eq!(
        claims.id_token,
        object(vec![("ids", array(vec![text("one"), text("two")]))])
    );
}

/// A nested annotation registers the full path of the node declaring
/// it.
#[test]
fn nested_annotation_registers_full_path() {
    let schema_json = object(vec![(
        "properties",
        object(vec![(
            "name",
            object(vec![(
                "properties",
                object(vec![(
                    "first",
                    object(vec![("indietyp/consent", consent_annotation(vec!["given"]))]),
                )]),
            )]),
        )]),
    )]);
    let node = SchemaNode::parse(&schema_json).expect("schema should parse");
    let index = ImplicitScope::find(&key("indietyp/consent"), &node, Vec::new());
    assert_eq!(single_pointer_text(&index, "given"), vec!["/name/first".to_owned()]);
}
