use holycontainer::error::ContainerError;
use holycontainer::json::parse;
use holycontainer::registry::{
    auth_after_probe, auth_start, auth_token_from_response, blob_headers, blob_url, check_layer_download,
    extract_auth_param, image_info, image_storage_dir, layer_file_name, layer_tar_bytes, manifest_is_list,
    manifest_url, on_digest_manifest_response, on_manifest_response, parse_manifest, registry_headers,
    select_platform_digest, AuthStep, ImageRef, ManifestStep,
};

fn network_message(e: ContainerError) -> String {
    match e {
        ContainerError::Network(m) => m,
        other => panic!("not a network error: {:?}", other),
    }
}

#[test]
fn image_ref_forms() {
    let r = ImageRef::parse("ubuntu:22.04").unwrap();
    assert_eq!((r.registry.as_str(), r.namespace.as_str(), r.name.as_str(), r.tag.as_str()), ("registry-1.docker.io", "library", "ubuntu", "22.04"));
    let r = ImageRef::parse("myuser/app").unwrap();
    assert_eq!((r.registry.as_str(), r.namespace.as_str(), r.name.as_str(), r.tag.as_str()), ("registry-1.docker.io", "myuser", "app", "latest"));
    let r = ImageRef::parse("ghcr.io/app:1").unwrap();
    assert_eq!((r.registry.as_str(), r.namespace.as_str(), r.name.as_str(), r.tag.as_str()), ("ghcr.io", "library", "app", "1"));
    let r = ImageRef::parse("localhost:5000/ns/app").unwrap();
    assert_eq!((r.registry.as_str(), r.namespace.as_str(), r.name.as_str(), r.tag.as_str()), ("localhost:5000", "ns", "app", "latest"));
    assert!(matches!(ImageRef::parse("a/b/c/d"), Err(ContainerError::Config(_))));
    assert_eq!(ImageRef::parse("ubuntu:22.04").unwrap().display(), "ubuntu:22.04");
    assert_eq!(ImageRef::parse("myuser/app").unwrap().display(), "myuser/app:latest");
    assert_eq!(ImageRef::parse("myuser/app").unwrap().repository(), "myuser/app");
}

#[test]
fn auth_param_extraction() {
    let h = r#"Bearer realm="https://auth.example.com/token",service="registry.example.com""#;
    assert_eq!(extract_auth_param(h, "realm").as_deref(), Some("https://auth.example.com/token"));
    assert_eq!(extract_auth_param(h, "service").as_deref(), Some("registry.example.com"));
    assert_eq!(extract_auth_param(h, "scope"), None);
}

#[test]
fn auth_flow_steps() {
    let hub = ImageRef::parse("alpine").unwrap();
    match auth_start(&hub) {
        AuthStep::FetchToken(u) => assert_eq!(u, "https://auth.docker.io/token?service=registry.docker.io&scope=repository:library/alpine:pull"),
        _ => panic!("expected a token fetch"),
    }
    let other = ImageRef::parse("ghcr.io/org/app").unwrap();
    match auth_start(&other) {
        AuthStep::Probe(u) => assert_eq!(u, "https://ghcr.io/v2/"),
        _ => panic!("expected a probe"),
    }
    match auth_after_probe(200, None, "org/app").unwrap() {
        AuthStep::Token(t) => assert_eq!(t, ""),
        _ => panic!("expected no token"),
    }
    let www = r#"Bearer realm="https://ghcr.io/token",service="ghcr.io""#;
    match auth_after_probe(401, Some(www), "org/app").unwrap() {
        AuthStep::FetchToken(u) => assert_eq!(u, "https://ghcr.io/token?service=ghcr.io&scope=repository:org/app:pull"),
        _ => panic!("expected a token fetch"),
    }
    assert_eq!(network_message(auth_after_probe(401, None, "x").err().unwrap()), "registry requires auth but no WWW-Authenticate");
    assert_eq!(network_message(auth_after_probe(401, Some("Basic"), "x").err().unwrap()), "cannot parse auth challenge");
}

#[test]
fn auth_token_reply() {
    assert_eq!(auth_token_from_response(200, r#"{"token":"abc"}"#).unwrap(), "abc");
    assert_eq!(auth_token_from_response(200, r#"{"access_token":"xyz"}"#).unwrap(), "xyz");
    // a non-string token does not fall back to access_token
    assert_eq!(network_message(auth_token_from_response(200, r#"{"token":1,"access_token":"xyz"}"#).err().unwrap()), "no token in auth response");
    assert_eq!(network_message(auth_token_from_response(403, "").err().unwrap()), "auth token request failed: HTTP 403");
    assert!(matches!(auth_token_from_response(200, "not json"), Err(ContainerError::Network(_))));
}

#[test]
fn manifest_layers() {
    let body = r#"{"config":{"digest":"sha256:cfg"},"layers":[
        {"mediaType":"application/vnd.docker.image.rootfs.diff.tar.gzip","digest":"sha256:aaa","size":123},
        {"digest":"sha256:bbb","size":-1},
        {"digest":"sha256:ccc","size":1.5}]}"#;
    let m = parse_manifest(&parse(body).unwrap()).unwrap();
    assert_eq!(m.config_digest, "sha256:cfg");
    assert_eq!(m.layers.len(), 3);
    assert_eq!(m.layers[0].media_type, "application/vnd.docker.image.rootfs.diff.tar.gzip");
    assert_eq!(m.layers[0].size, 123);
    assert_eq!(m.layers[1].media_type, "application/octet-stream");
    assert_eq!(m.layers[1].size, u64::MAX);
    assert_eq!(m.layers[2].size, 0);
    let no_cfg = parse_manifest(&parse(r#"{"layers":[]}"#).unwrap()).unwrap();
    assert_eq!(no_cfg.config_digest, "");
    assert_eq!(network_message(parse_manifest(&parse("{}").unwrap()).err().unwrap()), "no layers in manifest");
    assert_eq!(network_message(parse_manifest(&parse(r#"{"layers":[{"size":1}]}"#).unwrap()).err().unwrap()), "layer missing digest");
}

#[test]
fn manifest_list_selection() {
    let list = parse(r#"{"mediaType":"application/vnd.docker.distribution.manifest.list.v2+json","manifests":[
        {"digest":"sha256:arm","platform":{"architecture":"arm64","os":"linux"}},
        {"digest":"sha256:amd","platform":{"architecture":"amd64","os":"linux"}}]}"#).unwrap();
    assert!(manifest_is_list(&list));
    assert_eq!(select_platform_digest(&list).unwrap(), "sha256:amd");
    let none = parse(r#"{"manifests":[{"digest":"d","platform":{"architecture":"s390x","os":"linux"}}]}"#).unwrap();
    assert_eq!(network_message(select_platform_digest(&none).err().unwrap()), "no amd64/linux manifest found in manifest list");
    let nodigest = parse(r#"{"manifests":[{"platform":{"architecture":"amd64","os":"linux"}}]}"#).unwrap();
    assert_eq!(network_message(select_platform_digest(&nodigest).err().unwrap()), "no digest in manifest list entry");
    assert_eq!(network_message(select_platform_digest(&parse("{}").unwrap()).err().unwrap()), "no manifests in manifest list");
    assert!(!manifest_is_list(&parse(r#"{"layers":[]}"#).unwrap()));
}

#[test]
fn manifest_response_steps() {
    let r = ImageRef::parse("alpine:3").unwrap();
    match on_manifest_response(&r, 404, "").err().unwrap() {
        ContainerError::NotFound(m) => assert_eq!(m, "image alpine:3"),
        other => panic!("{:?}", other),
    }
    assert_eq!(network_message(on_manifest_response(&r, 500, "oops").err().unwrap()), "manifest fetch failed: HTTP 500 \u{2014} oops");
    let list = r#"{"manifests":[{"digest":"sha256:amd","platform":{"architecture":"amd64","os":"linux"}}]}"#;
    match on_manifest_response(&r, 200, list).unwrap() {
        ManifestStep::FetchByDigest(u) => assert_eq!(u, "https://registry-1.docker.io/v2/library/alpine/manifests/sha256:amd"),
        _ => panic!("expected a digest fetch"),
    }
    match on_manifest_response(&r, 200, r#"{"layers":[{"digest":"d1"}]}"#).unwrap() {
        ManifestStep::Done(m) => assert_eq!(m.layers[0].digest, "d1"),
        _ => panic!("expected a manifest"),
    }
    assert_eq!(network_message(on_digest_manifest_response(401, "").err().unwrap()), "manifest fetch by digest failed: HTTP 401");
    assert_eq!(on_digest_manifest_response(200, r#"{"layers":[]}"#).unwrap().layers.len(), 0);
}

#[test]
fn registry_urls_and_headers() {
    let r = ImageRef::parse("ghcr.io/org/app:v1").unwrap();
    assert_eq!(manifest_url(&r, "v1"), "https://ghcr.io/v2/org/app/manifests/v1");
    assert_eq!(blob_url(&r, "sha256:x"), "https://ghcr.io/v2/org/app/blobs/sha256:x");
    let h = registry_headers("tok");
    assert_eq!(h.len(), 2);
    assert_eq!(h[0].0, "Accept");
    assert_eq!(h[1], ("Authorization".to_string(), "Bearer tok".to_string()));
    assert_eq!(registry_headers("").len(), 1);
    assert_eq!(blob_headers("").len(), 0);
    assert_eq!(blob_headers("t")[0].1, "Bearer t");
    assert!(check_layer_download(200).is_ok());
    assert_eq!(network_message(check_layer_download(404).err().unwrap()), "layer download failed: HTTP 404");
}

#[test]
fn image_storage_names() {
    let r = ImageRef::parse("ubuntu:22.04").unwrap();
    assert_eq!(image_storage_dir("/var/lib/hc", &r), "/var/lib/hc/images/ubuntu_22.04");
    assert_eq!(layer_file_name("sha256:abc"), "sha256_abc");
    assert_eq!(image_info(&r, 3), "image=ubuntu:22.04\nregistry=registry-1.docker.io\nrepository=library/ubuntu\ntag=22.04\nlayers=3\n");
}

#[test]
fn layer_bytes_plain_or_gzip() {
    let plain = vec![1u8, 2, 3];
    assert_eq!(layer_tar_bytes(&plain).unwrap(), plain);
    let gz = holycontainer::gzip::compress_simple(b"layer data");
    assert_eq!(layer_tar_bytes(&gz).unwrap(), b"layer data".to_vec());
    assert!(layer_tar_bytes(&[0x1f, 0x8b, 0, 0]).is_err());
}
