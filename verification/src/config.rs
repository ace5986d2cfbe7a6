//! Configuration data for a migration run.
//!
//! All text is held as raw bytes: the configuration file is a byte
//! stream, and registry references are passed to the external tool
//! verbatim, so nothing here depends on a character encoding.

use vstd::prelude::*;

verus! {

/// One image entry: a repository name, the version tags to copy, and an
/// optional platform list that overrides the configuration-wide default
/// for this image alone.
#[derive(Debug, PartialEq, Eq)]
pub struct Image {
    pub image: Vec<u8>,
    pub versions: Vec<Vec<u8>>,
    pub platforms: Option<Vec<Vec<u8>>>,
}

/// A migration configuration: the source and destination registry base
/// references, an optional default platform list, and the ordered list
/// of images to migrate.
#[derive(Debug, PartialEq, Eq)]
pub struct Config {
    pub source: Vec<u8>,
    pub destination: Vec<u8>,
    pub platforms: Option<Vec<Vec<u8>>>,
    pub images: Vec<Image>,
}

/// Mathematical model of an [`Image`].
#[verifier::ext_equal]
pub struct ImageModel {
    pub image: Seq<u8>,
    pub versions: Seq<Seq<u8>>,
    pub platforms: Option<Seq<Seq<u8>>>,
}

/// Mathematical model of a [`Config`].
#[verifier::ext_equal]
pub struct ConfigModel {
    pub source: Seq<u8>,
    pub destination: Seq<u8>,
    pub platforms: Option<Seq<Seq<u8>>>,
    pub images: Seq<ImageModel>,
}

impl DeepView for Image {
    type V = ImageModel;

    open spec fn deep_view(&self) -> ImageModel {
        ImageModel {
            image: self.image.deep_view(),
            versions: self.versions.deep_view(),
            platforms: self.platforms.deep_view(),
        }
    }
}

impl DeepView for Config {
    type V = ConfigModel;

    open spec fn deep_view(&self) -> ConfigModel {
        ConfigModel {
            source: self.source.deep_view(),
            destination: self.destination.deep_view(),
            platforms: self.platforms.deep_view(),
            images: self.images.deep_view(),
        }
    }
}

/// Why a configuration could not be loaded: the text is not a
/// well-formed configuration document.
#[derive(Clone, Copy, Debug, PartialEq, Eq, Structural)]
pub enum ConfigError {
    Parse,
}

} // verus!
