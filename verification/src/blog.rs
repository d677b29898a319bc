use vstd::prelude::*;
use std::collections::HashMap;

verus! {

/// The blog's settings, read from `blog.json`.
pub struct Blog {
    pub title: String,
    pub sub_title: String,
    pub meta: HashMap<String, String>,
    pub url: String,
    pub token: String,
    pub theme: String,
}

} // verus!
