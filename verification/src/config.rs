use vstd::prelude::*;
use yaml_rust::Yaml;
use crate::text::{chars_eq, chars_of, string_from_chars, views};

verus! {

/// A YAML node as yaml-rust reads it; reals are kept as their text.
pub enum YamlNode {
    Real(String),
    Integer(i64),
    Text(String),
    Boolean(bool),
    Array(Vec<YamlNode>),
    Hash(Vec<(YamlNode, YamlNode)>),
    Alias(usize),
    Null,
    BadValue,
}

/// yaml-rust's document node type, carried through opaquely.
#[verifier::external_type_specification]
#[verifier::external_body]
pub struct ExYaml(yaml_rust::Yaml);

/// The documents yaml-rust's `YamlLoader::load_from_str` reads from `text`
/// (`None` when it reports a scan error).
pub uninterp spec fn yaml_documents(text: Seq<char>) -> Option<Vec<YamlNode>>;

/// yaml-rust's `YamlLoader::load_from_str`, its documents turned node for
/// node into `YamlNode`s (a hash keeps its entries in insertion order). The
/// contract only names the result.
#[verifier::external_body]
fn load_yaml(text: &str) -> (r: Option<Vec<YamlNode>>)
    ensures
        r == yaml_documents(text@),
{
    match yaml_rust::YamlLoader::load_from_str(text) {
        Ok(docs) => Some(docs.into_iter().map(node_of).collect()),
        Err(_) => None,
    }
}

/// One yaml-rust node as a `YamlNode`, variant for variant (the
/// conversion `load_yaml` applies to each document).
#[verifier::external_body]
fn node_of(y: Yaml) -> YamlNode {
    match y {
        Yaml::Real(s) => YamlNode::Real(s),
        Yaml::Integer(i) => YamlNode::Integer(i),
        Yaml::String(s) => YamlNode::Text(s),
        Yaml::Boolean(b) => YamlNode::Boolean(b),
        Yaml::Array(a) => YamlNode::Array(a.into_iter().map(node_of).collect()),
        Yaml::Hash(h) => YamlNode::Hash(h.into_iter().map(|(k, v)| (node_of(k), node_of(v))).collect()),
        Yaml::Alias(n) => YamlNode::Alias(n),
        Yaml::Null => YamlNode::Null,
        Yaml::BadValue => YamlNode::BadValue,
    }
}


/// The value under the text key `key` among hash entries, the first such
/// entry winning (a hash has each key once); `BadValue` when there is none.
pub open spec fn lookup_text_key(pairs: Seq<(YamlNode, YamlNode)>, key: Seq<char>) -> YamlNode
    decreases pairs.len(),
{
    if pairs.len() == 0 {
        YamlNode::BadValue
    } else if pairs[0].0 matches YamlNode::Text(s) && s@ == key {
        pairs[0].1
    } else {
        lookup_text_key(pairs.skip(1), key)
    }
}

/// yaml-rust's `node[key]`: the value under a text key of a hash,
/// `BadValue` for anything else.
pub open spec fn yaml_index(node: YamlNode, key: Seq<char>) -> YamlNode {
    match node {
        YamlNode::Hash(pairs) => lookup_text_key(pairs@, key),
        _ => YamlNode::BadValue,
    }
}

/// What iterating a node yields: the elements of an array, nothing for
/// anything else.
pub open spec fn yaml_items(node: YamlNode) -> Seq<YamlNode> {
    match node {
        YamlNode::Array(v) => v@,
        _ => Seq::empty(),
    }
}

/// The `job_name` of a scrape configuration, when it is a string.
pub open spec fn job_name_of(node: YamlNode) -> Option<Seq<char>> {
    match yaml_index(node, "job_name"@) {
        YamlNode::Text(s) => Some(s@),
        _ => None,
    }
}

/// The job names of the `scrape_configs` of the first document; `None` when
/// there is no document or a configuration has no string `job_name`.
pub open spec fn scrape_job_names(docs: Seq<YamlNode>) -> Option<Seq<Seq<char>>> {
    if docs.len() == 0 {
        None
    } else {
        let items = yaml_items(yaml_index(docs[0], "scrape_configs"@));
        if forall|i: int| 0 <= i < items.len() ==> (#[trigger] job_name_of(items[i])) is Some {
            Some(Seq::new(items.len(), |i: int| job_name_of(items[i])->0))
        } else {
            None
        }
    }
}

/// Whether a node is the text `key`.
fn is_text_key(node: &YamlNode, key: &Vec<char>) -> (r: bool)
    ensures
        r == (*node matches YamlNode::Text(s) && s@ == key@),
{
    match node {
        YamlNode::Text(s) => chars_eq(&chars_of(s.as_str()), key),
        _ => false,
    }
}

/// `node[key]`, `None` standing for `BadValue`.
fn index_text<'a>(node: &'a YamlNode, key: &Vec<char>) -> (r: Option<&'a YamlNode>)
    ensures
        match r {
            Some(v) => *v == yaml_index(*node, key@) && !(*v matches YamlNode::BadValue),
            None => yaml_index(*node, key@) matches YamlNode::BadValue,
        },
{
    match node {
        YamlNode::Hash(pairs) => {
            let n = pairs.len();
            let mut i: usize = 0;
            assert(pairs@.skip(0) =~= pairs@);
            while i < n
                invariant
                    i <= n,
                    n == pairs@.len(),
                    yaml_index(*node, key@) == lookup_text_key(pairs@, key@),
                    lookup_text_key(pairs@, key@) == lookup_text_key(pairs@.skip(i as int), key@),
                decreases n - i,
            {
                assert(pairs@.skip(i as int)[0] == pairs@[i as int]);
                assert(pairs@.skip(i as int).skip(1) =~= pairs@.skip(i + 1));
                if is_text_key(&pairs[i].0, key) {
                    let v = &pairs[i].1;
                    if let YamlNode::BadValue = v {
                        return None;
                    }
                    return Some(v);
                }
                i += 1;
            }
            None
        },
        _ => None,
    }
}

/// The job names that a Prometheus configuration file lists under
/// `scrape_configs`; `None` when the text is not YAML or the names are
/// not all there.
pub fn prometheus_job_names(contents: &str) -> (r: Option<Vec<String>>)
    ensures
        match yaml_documents(contents@) {
            Some(docs) => match scrape_job_names(docs@) {
                Some(names) => r matches Some(v) && views(v@) == names,
                None => r is None,
            },
            None => r is None,
        },
{
    let docs = load_yaml(contents);
    let docs = match docs {
        Some(d) => d,
        None => return None,
    };
    if docs.len() == 0 {
        return None;
    }
    let configs = index_text(&docs[0], &chars_of("scrape_configs"));
    let items: &Vec<YamlNode> = match configs {
        Some(YamlNode::Array(v)) => v,
        _ => {
            assert(yaml_items(yaml_index(docs@[0], "scrape_configs"@)).len() == 0);
            return Some(Vec::new());
        },
    };
    let ghost its = yaml_items(yaml_index(docs@[0], "scrape_configs"@));
    assert(its == items@);
    let job_key = chars_of("job_name");
    let mut out: Vec<String> = Vec::new();
    let n = items.len();
    let mut i: usize = 0;
    while i < n
        invariant
            i <= n,
            n == its.len(),
            its == items@,
            its == yaml_items(yaml_index(docs@[0], "scrape_configs"@)),
            docs@.len() > 0,
            yaml_documents(contents@) == Some(docs),
            job_key@ == "job_name"@,
            forall|j: int| 0 <= j < i ==> (#[trigger] job_name_of(its[j])) is Some,
            views(out@) == Seq::new(i as nat, |j: int| job_name_of(its[j])->0),
        decreases n - i,
    {
        let name = index_text(&items[i], &job_key);
        match name {
            Some(YamlNode::Text(s)) => {
                let ghost old_out = views(out@);
                let x = string_from_chars(&chars_of(s.as_str()));
                assert(job_name_of(its[i as int]) == Some(s@));
                out.push(x);
                assert(views(out@) =~= old_out.push(s@));
                assert(views(out@) =~= Seq::new((i + 1) as nat, |j: int| job_name_of(its[j])->0));
            },
            _ => {
                assert(job_name_of(its[i as int]) is None);
                return None;
            },
        }
        i += 1;
    }
    Some(out)
}

} // verus!
