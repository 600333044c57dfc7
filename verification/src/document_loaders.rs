//! Configuration for the browser-based document loader. The loading
//! itself drives a headless browser and lives outside the verified core.

use vstd::prelude::*;

verus! {

/// Which browser a loader drives.
pub enum BrowserKind {
    Chrome,
}

/// Configuration for loading pages by URL through a browser.
pub struct BrowserURLLoader<'a> {
    pub urls: Vec<&'a str>,
    pub continue_on_failure: bool,
    pub browser: BrowserKind,
    pub binary_location: Option<&'a str>,
    pub executable_path: Option<&'a str>,
    pub headless: bool,
    pub arguments: Vec<&'a str>,
}

impl<'a> BrowserURLLoader<'a> {
    pub fn new(
        urls: Vec<&'a str>,
        continue_on_failure: bool,
        browser: BrowserKind,
        binary_location: Option<&'a str>,
        executable_path: Option<&'a str>,
        headless: bool,
        arguments: Vec<&'a str>,
    ) -> (r: Self)
        ensures
            r.urls == urls,
            r.continue_on_failure == continue_on_failure,
            r.binary_location == binary_location,
            r.executable_path == executable_path,
            r.headless == headless,
            r.arguments == arguments,
    {
        Self {
            urls,
            continue_on_failure,
            browser,
            binary_location,
            executable_path,
            headless,
            arguments,
        }
    }

    /// Load one URL with a headless Chrome and default options.
    pub fn default(url: &'a str) -> (r: Self)
        ensures
            r.urls@ == seq![url],
            r.continue_on_failure == false,
            r.binary_location is None,
            r.executable_path is None,
            r.headless == true,
            r.arguments@.len() == 0,
    {
        let mut urls: Vec<&'a str> = Vec::new();
        urls.push(url);
        proof {
            assert(urls@ =~= seq![url]);
        }
        Self {
            urls,
            continue_on_failure: false,
            browser: BrowserKind::Chrome,
            binary_location: None,
            executable_path: None,
            headless: true,
            arguments: Vec::new(),
        }
    }
}

} // verus!
