use registry_migrate::config::{Config, ConfigError, Image};
use registry_migrate::logsink::append_record;
use registry_migrate::plan::{docker_args, join_commas, load_plan, make_ref, plan, platform_selector};

fn bv(s: &str) -> Vec<u8> {
    s.as_bytes().to_vec()
}

#[test]
fn ref_is_base_slash_image_colon_version() {
    assert_eq!(make_ref(&bv("reg.io/ns"), &bv("app"), &bv("1.0")), bv("reg.io/ns/app:1.0"));
    // no normalization of any part
    assert_eq!(make_ref(&bv("a//"), &bv("./b"), &bv("..")), bv("a///./b:.."));
    assert_eq!(make_ref(&bv(""), &bv(""), &bv("")), bv("/:"));
}

#[test]
fn join_commas_shapes() {
    assert_eq!(join_commas(&vec![]), bv(""));
    assert_eq!(join_commas(&vec![bv("one")]), bv("one"));
    assert_eq!(
        join_commas(&vec![bv("linux/amd64"), bv("linux/arm64"), bv("linux/386")]),
        bv("linux/amd64,linux/arm64,linux/386")
    );
}

#[test]
fn selector_prefers_own_then_default_then_none() {
    let own = Some(vec![bv("linux/arm64")]);
    let def = Some(vec![bv("linux/amd64"), bv("linux/386")]);
    assert_eq!(platform_selector(&own, &def), Some(bv("linux/arm64")));
    assert_eq!(platform_selector(&None, &def), Some(bv("linux/amd64,linux/386")));
    assert_eq!(platform_selector(&None, &None), None);
    assert_eq!(platform_selector(&own, &None), Some(bv("linux/arm64")));
}

#[test]
fn plan_follows_config_order() {
    let config = Config {
        source: bv("old.reg"),
        destination: bv("new.reg"),
        platforms: None,
        images: vec![
            Image { image: bv("a"), versions: vec![bv("1"), bv("2")], platforms: None },
            Image { image: bv("b"), versions: vec![], platforms: None },
            Image { image: bv("c"), versions: vec![bv("3")], platforms: None },
        ],
    };
    let p = plan(&config);
    assert_eq!(p.len(), 3);
    assert_eq!(p[0].src_ref, bv("old.reg/a:1"));
    assert_eq!(p[1].src_ref, bv("old.reg/a:2"));
    assert_eq!(p[2].src_ref, bv("old.reg/c:3"));
    assert_eq!(p[2].dst_ref, bv("new.reg/c:3"));
    assert_eq!(p[0].image, bv("a"));
    assert_eq!(p[0].version, bv("1"));
}

#[test]
fn plan_uses_platform_override_per_image() {
    let config = Config {
        source: bv("s"),
        destination: bv("d"),
        platforms: Some(vec![bv("linux/amd64"), bv("linux/arm64")]),
        images: vec![
            Image { image: bv("a"), versions: vec![bv("1")], platforms: Some(vec![bv("linux/386")]) },
            Image { image: bv("b"), versions: vec![bv("1")], platforms: None },
        ],
    };
    let p = plan(&config);
    assert_eq!(p[0].platforms, Some(bv("linux/386")));
    assert_eq!(p[1].platforms, Some(bv("linux/amd64,linux/arm64")));
}

#[test]
fn empty_images_plan_nothing() {
    let config = Config {
        source: bv("s"),
        destination: bv("d"),
        platforms: None,
        images: vec![],
    };
    assert!(plan(&config).is_empty());
}

#[test]
fn docker_args_with_platforms() {
    let config = Config {
        source: bv("s"),
        destination: bv("d"),
        platforms: Some(vec![bv("linux/amd64")]),
        images: vec![Image { image: bv("a"), versions: vec![bv("1")], platforms: None }],
    };
    let p = plan(&config);
    let args = docker_args(&p[0]);
    assert_eq!(
        args,
        vec![
            bv("buildx"),
            bv("imagetools"),
            bv("create"),
            bv("--tag"),
            bv("d/a:1"),
            bv("s/a:1"),
            bv("--platform"),
            bv("linux/amd64"),
        ]
    );
}

#[test]
fn docker_args_without_platforms() {
    let config = Config {
        source: bv("s"),
        destination: bv("d"),
        platforms: None,
        images: vec![Image { image: bv("a"), versions: vec![bv("1")], platforms: None }],
    };
    let p = plan(&config);
    let args = docker_args(&p[0]);
    assert_eq!(
        args,
        vec![bv("buildx"), bv("imagetools"), bv("create"), bv("--tag"), bv("d/a:1"), bv("s/a:1")]
    );
}

#[test]
fn example_two_version_run() {
    let text = r#"{"source":"old.reg","destination":"new.reg","images":[{"image":"app","versions":["1.0","2.0"]}]}"#;
    let p = load_plan(&text.as_bytes().to_vec()).unwrap();
    assert_eq!(p.len(), 2);
    assert_eq!(p[0].src_ref, bv("old.reg/app:1.0"));
    assert_eq!(p[0].dst_ref, bv("new.reg/app:1.0"));
    assert_eq!(p[1].src_ref, bv("old.reg/app:2.0"));
    assert_eq!(p[1].dst_ref, bv("new.reg/app:2.0"));
    assert_eq!(p[0].platforms, None);
}

#[test]
fn malformed_text_plans_nothing() {
    let r = load_plan(&b"{oops".to_vec());
    assert_eq!(r.unwrap_err(), ConfigError::Parse);
}

#[test]
fn log_appends_stdout_then_stderr_in_order() {
    let mut log: Vec<u8> = b"old-content|".to_vec();
    append_record(&mut log, &b"out1".to_vec(), &b"err1".to_vec());
    append_record(&mut log, &b"out2".to_vec(), &b"err2".to_vec());
    assert_eq!(log, b"old-content|out1err1out2err2".to_vec());
}
