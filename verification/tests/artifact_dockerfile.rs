use sightglass::dockerfile::{identifier_from_digest, to_hex, Dockerfile};
use sightglass::interpret::contextualize;

#[test]
fn artifact_dockerfile_paths() {
    let d = Dockerfile::from("./benchmarks/noop/Dockerfile".to_string());
    assert_eq!(d.parent_dir(), "./benchmarks/noop");
    assert_eq!(d.path(), "./benchmarks/noop/Dockerfile");
    assert_eq!(Dockerfile::from("/Dockerfile".to_string()).parent_dir(), "/");
}

#[test]
fn artifact_identifier_is_blake3_of_contents() {
    assert_eq!(
        Dockerfile::identifier(b"abc"),
        "dockerfile@Hash(\"6437b3ac38465133ffb63b75273a8db548c558465d79db03fd359c6cd5bd9d85\")"
    );
}

#[test]
fn identifier_from_digest_spells_hex() {
    assert_eq!(identifier_from_digest(&vec![0x00, 0x0f, 0xa0, 0xff]), "dockerfile@Hash(\"000fa0ff\")");
    assert_eq!(to_hex(&vec![0x12, 0xab]), vec!['1', '2', 'a', 'b']);
    assert_eq!(identifier_from_digest(&Vec::new()), "dockerfile@Hash(\"\")");
}

#[test]
fn contextualized_absolute_paths_stay_inside_container() {
    for p in ["/", "/a", "/a/../../b", "//x//y/", "/./c"] {
        let placed = contextualize("/tmp/box", "/tmp/box/w", p);
        assert!(placed.starts_with("/tmp/box"), "{} -> {}", p, placed);
    }
    for p in ["a", "./b", "c/d/"] {
        let placed = contextualize("/tmp/box", "/tmp/box/w", p);
        assert!(placed.starts_with("/tmp/box/w"), "{} -> {}", p, placed);
    }
}
