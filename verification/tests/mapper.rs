use reconciler::key::ObjectKey;
use reconciler::mapper::{CrossReference, RelationMapper, SecondaryObject};

fn secondary(namespace: &str, target: Option<(&str, &str)>) -> SecondaryObject {
    SecondaryObject {
        namespace: namespace.to_string(),
        target: target.map(|(kind, name)| CrossReference {
            kind: kind.to_string(),
            name: name.to_string(),
        }),
    }
}

#[test]
fn mapper_matching_kind_gives_primary_key() {
    let mapper = RelationMapper::new("Deployment");
    let key = mapper.map(&secondary("prod", Some(("Deployment", "web"))));
    assert_eq!(key, Some(ObjectKey::new("Deployment", "prod", "web")));
}

#[test]
fn mapper_other_kind_gives_nothing() {
    let mapper = RelationMapper::new("Deployment");
    assert_eq!(mapper.map(&secondary("prod", Some(("StatefulSet", "web")))), None);
}

#[test]
fn mapper_kind_is_compared_exactly() {
    let mapper = RelationMapper::new("Deployment");
    assert_eq!(mapper.map(&secondary("prod", Some(("deployment", "web")))), None);
    assert_eq!(mapper.map(&secondary("prod", Some(("Deployments", "web")))), None);
    assert_eq!(mapper.map(&secondary("prod", Some(("", "web")))), None);
}

#[test]
fn mapper_without_reference_gives_nothing() {
    let mapper = RelationMapper::new("Deployment");
    assert_eq!(mapper.map(&secondary("prod", None)), None);
}

#[test]
fn mapper_takes_namespace_of_secondary_object() {
    let mapper = RelationMapper::new("Deployment");
    let a = mapper.map(&secondary("a", Some(("Deployment", "web")))).unwrap();
    let b = mapper.map(&secondary("b", Some(("Deployment", "web")))).unwrap();
    assert_eq!(a.namespace(), "a");
    assert_eq!(b.namespace(), "b");
    assert_ne!(a, b);
    let cluster = mapper.map(&secondary("", Some(("Deployment", "web")))).unwrap();
    assert_eq!(cluster.namespace(), "");
    assert_eq!(cluster.kind(), "Deployment");
    assert_eq!(cluster.name(), "web");
}

#[test]
fn mapper_does_not_look_at_the_name() {
    let mapper = RelationMapper::new("Deployment");
    let key = mapper.map(&secondary("prod", Some(("Deployment", "no-such-object"))));
    assert_eq!(key, Some(ObjectKey::new("Deployment", "prod", "no-such-object")));
}
