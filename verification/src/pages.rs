//! What the pages show.
use vstd::prelude::*;
use vstd::string::*;

use crate::number;
use crate::status::Status;

verus! {

/// What every page shows: the version of the site.
#[derive(Debug, Clone, Copy)]
pub struct GlobalContext {
    pub version: &'static str,
}

impl GlobalContext {
    /// The context for a version of the site.
    pub fn new(version: &'static str) -> (r: Self)
        ensures
            r.version == version,
    {
        GlobalContext { version }
    }
}

/// What the start page shows. `T` is a point in time.
#[derive(Debug)]
pub struct IndexContext<T> {
    pub global: GlobalContext,
    pub domain_count: String,
    pub v4_count: String,
    pub last_update: Option<T>,
}

/// The start page for the totals of the databases.
pub fn index<T>(
    global: GlobalContext,
    total_domains: usize,
    total_v4s: usize,
    last_update: Option<T>,
) -> (r: IndexContext<T>)
    ensures
        r.global == global,
        r.domain_count@ == number::grouped(number::decimal(total_domains as nat)),
        r.v4_count@ == number::grouped(number::decimal(total_v4s as nat)),
        r.last_update == last_update,
        number::read_number(r.domain_count@) == total_domains,
        number::read_number(r.v4_count@) == total_v4s,
{
    proof {
        number::law_number_reads_back(total_domains as nat);
        number::law_number_reads_back(total_v4s as nat);
    }
    IndexContext {
        global,
        domain_count: number::format_number(total_domains),
        v4_count: number::format_number(total_v4s),
        last_update,
    }
}

/// The name of the template of a page of the knowledge base.
pub open spec fn template_of(page: Seq<char>) -> Seq<char> {
    "pages/"@ + page
}

/// The name of the template of a page of the knowledge base.
pub fn page_template(page: &str) -> (r: String)
    ensures
        r@ == template_of(page@),
{
    "pages/".to_string().concat(page)
}

/// A template to render, with what it shows.
#[derive(Debug)]
pub struct Page {
    pub template: String,
    pub global: GlobalContext,
}

/// The page with this template, if there is such a template.
pub fn page(global: GlobalContext, template: String, exists_template: bool) -> (r: Option<Page>)
    ensures
        r is Some <==> exists_template,
        r is Some ==> r->0.template == template && r->0.global == global,
{
    if exists_template {
        Some(Page { template, global })
    } else {
        None
    }
}

/// Different pages have different templates.
pub proof fn law_templates_tell_pages_apart(page: Seq<char>, other: Seq<char>)
    requires
        template_of(page) == template_of(other),
    ensures
        page == other,
{
    let n = "pages/"@.len() as int;
    assert(template_of(page).skip(n) =~= page);
    assert(template_of(other).skip(n) =~= other);
}

/// The template of a page stands in `pages/` under the name of the page.
pub proof fn law_templates_stand_in_pages(page: Seq<char>)
    ensures
        template_of(page) == seq!['p', 'a', 'g', 'e', 's', '/'] + page,
{
    reveal_strlit("pages/");
    assert("pages/"@ =~= seq!['p', 'a', 'g', 'e', 's', '/']);
}

/// Whether the databases are loaded: they are once there was an update.
pub fn healthcheck<T>(last_update: &Option<T>) -> (r: (Status, String))
    ensures
        last_update is Some ==> r.0 == Status::Success && r.1@ == "OK"@,
        last_update is None ==> r.0 == Status::InternalServerError && r.1@ == "LOADING DATABASES"@,
{
    if last_update.is_some() {
        (Status::Success, "OK".to_string())
    } else {
        (Status::InternalServerError, "LOADING DATABASES".to_string())
    }
}

/// How long a response may be kept by public caches.
#[derive(Debug, Clone, Copy, PartialEq, Eq, Structural)]
pub struct CachePolicy {
    pub max_age: u32,
    pub must_revalidate: bool,
}

/// Scripts of others may be kept for a week without asking again.
pub fn vendor_cache_policy() -> (r: CachePolicy)
    ensures
        r.max_age == 7 * 24 * 60 * 60,
        !r.must_revalidate,
{
    CachePolicy { max_age: 604800, must_revalidate: false }
}

} // verus!
