//! Planning a migration run.
//!
//! A plan is the exact sequence of copy invocations that a run performs:
//! one per (image, version) pair, in configuration order, each carrying
//! the source and destination references and the platform selector.

use vstd::prelude::*;

use crate::bytes::{copy_bytes, lit, lit_bytes, push_all};
use crate::config::{Config, ConfigError, ConfigModel, ImageModel};
use crate::parse::{parse_config, spec_config_doc};

verus! {

/// A registry reference is the base, a `/`, the image name, a `:`, and
/// the version tag, with no normalization of any part.
pub open spec fn ref_spec(base: Seq<u8>, image: Seq<u8>, version: Seq<u8>) -> Seq<u8> {
    base + seq!['/' as u8] + image + seq![':' as u8] + version
}

/// Builds the reference `{base}/{image}:{version}`.
pub fn make_ref(base: &Vec<u8>, image: &Vec<u8>, version: &Vec<u8>) -> (r: Vec<u8>)
    ensures
        r@ == ref_spec(base@, image@, version@),
{
    let mut r: Vec<u8> = Vec::new();
    push_all(&mut r, base);
    r.push('/' as u8);
    push_all(&mut r, image);
    r.push(':' as u8);
    push_all(&mut r, version);
    proof {
        assert(r@ =~= ref_spec(base@, image@, version@));
    }
    r
}

/// `parts` joined by the single byte `sep`, with nothing before the
/// first part or after the last.
pub open spec fn join_spec(parts: Seq<Seq<u8>>, sep: u8) -> Seq<u8>
    decreases parts.len(),
{
    if parts.len() == 0 {
        Seq::empty()
    } else if parts.len() == 1 {
        parts[0]
    } else {
        join_spec(parts.drop_last(), sep) + seq![sep] + parts.last()
    }
}

proof fn lemma_join_step(parts: Seq<Seq<u8>>, sep: u8, i: int)
    requires
        0 <= i < parts.len(),
    ensures
        join_spec(parts.take(i + 1), sep) == if i == 0 {
            parts[0]
        } else {
            (join_spec(parts.take(i), sep) + seq![sep] + parts[i])
        },
{
    let t = parts.take(i + 1);
    if i == 0 {
        assert(t.len() == 1);
        assert(t[0] == parts[0]);
    } else {
        assert(t.drop_last() =~= parts.take(i));
        assert(t.last() == parts[i]);
    }
}

/// Joins `parts` with commas: empty for no parts, the part itself for
/// one, and `a,b,c` style otherwise.
pub fn join_commas(parts: &Vec<Vec<u8>>) -> (r: Vec<u8>)
    ensures
        r@ == join_spec(parts.deep_view(), ',' as u8),
{
    let mut r: Vec<u8> = Vec::new();
    let mut i: usize = 0;
    proof {
        assert(parts.deep_view().take(0) =~= Seq::<Seq<u8>>::empty());
    }
    while i < parts.len()
        invariant
            i <= parts.len(),
            parts.deep_view().len() == parts.len(),
            r@ == join_spec(parts.deep_view().take(i as int), ',' as u8),
        decreases parts.len() - i,
    {
        proof {
            lemma_join_step(parts.deep_view(), ',' as u8, i as int);
        }
        let ghost r0 = r@;
        if i > 0 {
            r.push(',' as u8);
            proof {
                assert(r@ =~= r0 + seq![',' as u8]);
            }
        }
        push_all(&mut r, &parts[i]);
        proof {
            assert(parts.deep_view()[i as int] == parts[i as int].deep_view());
            if i > 0 {
                assert(r@ =~= r0 + seq![',' as u8] + parts.deep_view()[i as int]);
            }
        }
        i = i + 1;
    }
    proof {
        assert(parts.deep_view().take(parts.deep_view().len() as int) =~= parts.deep_view());
    }
    r
}

/// The platform selector for one image: its own list joined by commas
/// when it has one, else the configuration default joined by commas
/// when that exists, else nothing.
pub open spec fn selector_spec(
    own: Option<Seq<Seq<u8>>>,
    fallback: Option<Seq<Seq<u8>>>,
) -> Option<Seq<u8>> {
    match own {
        Some(p) => Some(join_spec(p, ',' as u8)),
        None => match fallback {
            Some(d) => Some(join_spec(d, ',' as u8)),
            None => None,
        },
    }
}

/// The selector's three arms, spelled out: an image's own platform
/// list wins and is used verbatim, the configuration default is used
/// only when the image has none, and no selector exists when neither
/// list does.
pub proof fn lemma_selector_arms(own: Option<Seq<Seq<u8>>>, fallback: Option<Seq<Seq<u8>>>)
    ensures
        own is Some ==> selector_spec(own, fallback) == Some(
            join_spec(own.unwrap(), ',' as u8),
        ),
        own is None && fallback is Some ==> selector_spec(own, fallback) == Some(
            join_spec(fallback.unwrap(), ',' as u8),
        ),
        own is None && fallback is None ==> selector_spec(own, fallback) is None,
{
}

/// Chooses and renders the platform selector for one image.
pub fn platform_selector(own: &Option<Vec<Vec<u8>>>, fallback: &Option<Vec<Vec<u8>>>) -> (r: Option<
    Vec<u8>,
>)
    ensures
        r.deep_view() == selector_spec(own.deep_view(), fallback.deep_view()),
{
    match own {
        Some(p) => Some(join_commas(p)),
        None => match fallback {
            Some(d) => Some(join_commas(d)),
            None => None,
        },
    }
}

/// One planned invocation of the external copy tool.
#[derive(Debug, PartialEq, Eq)]
pub struct Invocation {
    pub image: Vec<u8>,
    pub version: Vec<u8>,
    pub src_ref: Vec<u8>,
    pub dst_ref: Vec<u8>,
    pub platforms: Option<Vec<u8>>,
}

/// Mathematical model of an [`Invocation`].
#[verifier::ext_equal]
pub struct InvocationModel {
    pub image: Seq<u8>,
    pub version: Seq<u8>,
    pub src_ref: Seq<u8>,
    pub dst_ref: Seq<u8>,
    pub platforms: Option<Seq<u8>>,
}

impl DeepView for Invocation {
    type V = InvocationModel;

    open spec fn deep_view(&self) -> InvocationModel {
        InvocationModel {
            image: self.image.deep_view(),
            version: self.version.deep_view(),
            src_ref: self.src_ref.deep_view(),
            dst_ref: self.dst_ref.deep_view(),
            platforms: self.platforms.deep_view(),
        }
    }
}

/// The invocation planned for one version of one image.
pub open spec fn inv_of(c: ConfigModel, img: ImageModel, version: Seq<u8>) -> InvocationModel {
    InvocationModel {
        image: img.image,
        version: version,
        src_ref: ref_spec(c.source, img.image, version),
        dst_ref: ref_spec(c.destination, img.image, version),
        platforms: selector_spec(img.platforms, c.platforms),
    }
}

/// The invocations for the first `j` versions of one image, in order.
pub open spec fn image_plan_prefix(c: ConfigModel, img: ImageModel, j: int) -> Seq<InvocationModel>
    decreases j,
{
    if j <= 0 {
        Seq::empty()
    } else {
        image_plan_prefix(c, img, j - 1).push(inv_of(c, img, img.versions[j - 1]))
    }
}

/// The invocations for one image: one per version, in version order.
pub open spec fn image_plan(c: ConfigModel, img: ImageModel) -> Seq<InvocationModel> {
    image_plan_prefix(c, img, img.versions.len() as int)
}

/// The invocations for the first `i` images, in order.
pub open spec fn plan_prefix(c: ConfigModel, i: int) -> Seq<InvocationModel>
    decreases i,
{
    if i <= 0 {
        Seq::empty()
    } else {
        plan_prefix(c, i - 1) + image_plan(c, c.images[i - 1])
    }
}

/// The whole run: every image's invocations, in image order, each
/// image's in version order.
pub open spec fn plan_spec(c: ConfigModel) -> Seq<InvocationModel> {
    plan_prefix(c, c.images.len() as int)
}

/// Plans the whole run for a configuration.
pub fn plan(c: &Config) -> (r: Vec<Invocation>)
    ensures
        r.deep_view() == plan_spec(c.deep_view()),
{
    let ghost cm = c.deep_view();
    let mut r: Vec<Invocation> = Vec::new();
    let mut i: usize = 0;
    proof {
        assert(r.deep_view() =~= plan_prefix(cm, 0));
    }
    while i < c.images.len()
        invariant
            i <= c.images.len(),
            cm == c.deep_view(),
            cm.images.len() == c.images.len(),
            r.deep_view() == plan_prefix(cm, i as int),
        decreases c.images.len() - i,
    {
        let img = &c.images[i];
        let ghost imgm = cm.images[i as int];
        proof {
            assert(imgm == img.deep_view());
        }
        let mut j: usize = 0;
        proof {
            assert(r.deep_view() =~= plan_prefix(cm, i as int) + image_plan_prefix(cm, imgm, 0));
        }
        while j < img.versions.len()
            invariant
                j <= img.versions.len(),
                cm == c.deep_view(),
                imgm == img.deep_view(),
                imgm.versions.len() == img.versions.len(),
                r.deep_view() == plan_prefix(cm, i as int) + image_plan_prefix(cm, imgm, j as int),
            decreases img.versions.len() - j,
        {
            let version = &img.versions[j];
            proof {
                assert(imgm.versions[j as int] == version.deep_view());
            }
            let ghost before = r.deep_view();
            let item = Invocation {
                image: copy_bytes(&img.image),
                version: copy_bytes(version),
                src_ref: make_ref(&c.source, &img.image, version),
                dst_ref: make_ref(&c.destination, &img.image, version),
                platforms: platform_selector(&img.platforms, &c.platforms),
            };
            proof {
                assert(item.deep_view() =~= inv_of(cm, imgm, imgm.versions[j as int]));
            }
            r.push(item);
            proof {
                assert(r.deep_view() =~= before.push(inv_of(cm, imgm, imgm.versions[j as int])));
                assert(r.deep_view() =~= plan_prefix(cm, i as int) + image_plan_prefix(
                    cm,
                    imgm,
                    j + 1,
                ));
            }
            j = j + 1;
        }
        proof {
            assert(r.deep_view() == plan_prefix(cm, i as int) + image_plan(cm, imgm));
            assert(r.deep_view() == plan_prefix(cm, i + 1));
        }
        i = i + 1;
    }
    r
}

/// Total number of version tags across the first `i` images.
pub open spec fn versions_total_prefix(c: ConfigModel, i: int) -> int
    decreases i,
{
    if i <= 0 {
        0
    } else {
        versions_total_prefix(c, i - 1) + c.images[i - 1].versions.len()
    }
}

/// Total number of version tags across the whole configuration.
pub open spec fn versions_total(c: ConfigModel) -> int {
    versions_total_prefix(c, c.images.len() as int)
}

proof fn lemma_image_plan_props(c: ConfigModel, img: ImageModel, j: int)
    requires
        0 <= j,
    ensures
        image_plan_prefix(c, img, j).len() == j,
        forall|k: int|
            0 <= k < j ==> image_plan_prefix(c, img, j)[k] == inv_of(c, img, img.versions[k]),
    decreases j,
{
    if j > 0 {
        lemma_image_plan_props(c, img, j - 1);
    }
}

proof fn lemma_plan_prefix_len(c: ConfigModel, i: int)
    requires
        0 <= i,
    ensures
        plan_prefix(c, i).len() == versions_total_prefix(c, i),
    decreases i,
{
    if i > 0 {
        lemma_plan_prefix_len(c, i - 1);
        lemma_image_plan_props(c, c.images[i - 1], c.images[i - 1].versions.len() as int);
    }
}

proof fn lemma_plan_prefix_index(c: ConfigModel, i: int, j: int, k: int)
    requires
        0 <= i < k,
        0 <= j < c.images[i].versions.len(),
    ensures
        versions_total_prefix(c, i) + j < versions_total_prefix(c, k),
        plan_prefix(c, k)[versions_total_prefix(c, i) + j] == inv_of(
            c,
            c.images[i],
            c.images[i].versions[j],
        ),
    decreases k,
{
    lemma_total_nonneg(c, i);
    lemma_plan_prefix_len(c, k - 1);
    lemma_image_plan_props(c, c.images[k - 1], c.images[k - 1].versions.len() as int);
    assert(plan_prefix(c, k) == plan_prefix(c, k - 1) + image_plan(c, c.images[k - 1]));
    if k == i + 1 {
        lemma_plan_prefix_len(c, i);
        assert(plan_prefix(c, k - 1).len() == versions_total_prefix(c, i));
        assert((plan_prefix(c, k - 1) + image_plan(c, c.images[k - 1]))[versions_total_prefix(c, i)
            + j] == image_plan(c, c.images[i])[j as int]);
    } else {
        lemma_plan_prefix_index(c, i, j, k - 1);
        assert((plan_prefix(c, k - 1) + image_plan(c, c.images[k - 1]))[versions_total_prefix(c, i)
            + j] == plan_prefix(c, k - 1)[versions_total_prefix(c, i) + j]);
    }
}

/// How many invocations a run makes: one per version of each image,
/// `versions_total` in all.
pub proof fn lemma_plan_count(c: ConfigModel)
    ensures
        plan_spec(c).len() == versions_total(c),
{
    lemma_plan_prefix_len(c, c.images.len() as int);
}

/// Where each (image, version) pair stands in the run: image `i`'s
/// version `j` is invocation number `versions_total_prefix(c, i) + j`,
/// so the run follows configuration order exactly, images outermost.
pub proof fn lemma_plan_order(c: ConfigModel, i: int, j: int)
    requires
        0 <= i < c.images.len(),
        0 <= j < c.images[i].versions.len(),
    ensures
        0 <= versions_total_prefix(c, i) + j < plan_spec(c).len(),
        plan_spec(c)[versions_total_prefix(c, i) + j] == inv_of(
            c,
            c.images[i],
            c.images[i].versions[j],
        ),
{
    lemma_plan_count(c);
    lemma_plan_prefix_index(c, i, j, c.images.len() as int);
    lemma_total_nonneg(c, i);
}

proof fn lemma_total_nonneg(c: ConfigModel, i: int)
    ensures
        0 <= versions_total_prefix(c, i),
    decreases i,
{
    if i > 0 {
        lemma_total_nonneg(c, i - 1);
    }
}

/// A configuration with no images plans no invocations at all.
pub proof fn lemma_plan_empty(c: ConfigModel)
    requires
        c.images.len() == 0,
    ensures
        plan_spec(c) == Seq::<InvocationModel>::empty(),
{
}

/// Loads a configuration document and plans the whole run.
///
/// A malformed document yields the parse error and no plan at all, so
/// a caller driving the external tool from the returned plan makes no
/// invocation for it; a well-formed one yields exactly the planned
/// invocations for the configuration it denotes.
pub fn load_plan(s: &Vec<u8>) -> (r: Result<Vec<Invocation>, ConfigError>)
    ensures
        match r {
            Ok(p) => spec_config_doc(s@) is Some && p.deep_view() == plan_spec(
                spec_config_doc(s@).unwrap(),
            ),
            Err(e) => spec_config_doc(s@) is None && e == ConfigError::Parse,
        },
{
    match parse_config(s) {
        Err(e) => Err(e),
        Ok(c) => Ok(plan(&c)),
    }
}

/// The argument list handed to the external tool for one invocation:
/// `buildx imagetools create --tag <dst> <src>`, then `--platform <p>`
/// when a platform selector exists.
pub open spec fn args_spec(iv: InvocationModel) -> Seq<Seq<u8>> {
    let base = seq![
        lit("buildx"@),
        lit("imagetools"@),
        lit("create"@),
        lit("--tag"@),
        iv.dst_ref,
        iv.src_ref,
    ];
    match iv.platforms {
        Some(p) => base + seq![lit("--platform"@), p],
        None => base,
    }
}

/// Builds the external tool's argument list for one invocation.
pub fn docker_args(inv: &Invocation) -> (r: Vec<Vec<u8>>)
    ensures
        r.deep_view() == args_spec(inv.deep_view()),
{
    let mut r: Vec<Vec<u8>> = Vec::new();
    r.push(lit_bytes("buildx"));
    r.push(lit_bytes("imagetools"));
    r.push(lit_bytes("create"));
    r.push(lit_bytes("--tag"));
    r.push(copy_bytes(&inv.dst_ref));
    r.push(copy_bytes(&inv.src_ref));
    match &inv.platforms {
        Some(p) => {
            r.push(lit_bytes("--platform"));
            r.push(copy_bytes(p));
        },
        None => {},
    }
    proof {
        assert(r.deep_view() =~~= args_spec(inv.deep_view()));
    }
    r
}

} // verus!
