//! The format of a configuration sent over HTTP, read from its content type.
use vstd::prelude::*;

verus! {

#[derive(Clone, Copy, Debug, PartialEq, Eq, Structural)]
pub enum ConfigFormat {
    Json,
    Toml,
    Yaml,
}

/// A content type that names no configuration format.
#[derive(Clone, Copy, Debug, PartialEq, Eq, Structural)]
pub struct UnsupportedContentType;

impl UnsupportedContentType {
    pub fn message(&self) -> (r: String)
        ensures
            r@ == "unsupported content-type header. choices are application/json, application/toml and application/yaml"@,
    {
        String::from_str(
            "unsupported content-type header. choices are application/json, application/toml and application/yaml",
        )
    }
}

/// The configuration format named by a MIME subtype.
pub fn config_format_from_subtype(subtype: &String) -> (r: Result<ConfigFormat, UnsupportedContentType>)
    ensures
        r == if subtype@ == "json"@ {
            Ok(ConfigFormat::Json)
        } else if subtype@ == "yaml"@ {
            Ok(ConfigFormat::Yaml)
        } else if subtype@ == "toml"@ {
            Ok(ConfigFormat::Toml)
        } else {
            Err::<ConfigFormat, UnsupportedContentType>(UnsupportedContentType)
        },
{
    if *subtype == String::from_str("json") {
        Ok(ConfigFormat::Json)
    } else if *subtype == String::from_str("yaml") {
        Ok(ConfigFormat::Yaml)
    } else if *subtype == String::from_str("toml") {
        Ok(ConfigFormat::Toml)
    } else {
        Err(UnsupportedContentType)
    }
}

} // verus!
