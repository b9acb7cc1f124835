use vstd::prelude::*;

verus! {

use vstd::string::StringExecFns;

/// One feature row of the annotation graph: a typed, stranded, 1-based
/// inclusive reference range with free-form string attributes.
#[derive(Clone)]
pub struct FeatureRow {
    pub feature_type: String,
    pub seqname: String,
    pub strand: String,
    pub start: u64,
    pub end: u64,
    pub attributes: Vec<(String, String)>,
}

/// The annotation graph: feature rows plus a parent-to-children adjacency,
/// `children[i]` listing the child row indices of row `i`.
pub struct AnnotationGraph {
    pub rows: Vec<FeatureRow>,
    pub children: Vec<Vec<usize>>,
}

/// Well-formedness: the adjacency matches the rows, only references valid
/// row indices, and every row carries 1-based coordinates with
/// `start <= end`.
pub open spec fn graph_wf(annot: AnnotationGraph) -> bool {
    &&& annot.children@.len() == annot.rows@.len()
    &&& forall|i: int, j: int|
        0 <= i < annot.children@.len() && 0 <= j < annot.children@[i]@.len()
            ==> (#[trigger] annot.children@[i]@[j]) < annot.rows@.len()
    &&& forall|i: int|
        0 <= i < annot.rows@.len() ==> 1 <= (#[trigger] annot.rows@[i]).start
            && annot.rows@[i].start <= annot.rows@[i].end
}

/// The value of the first pair whose key reads `key`, if any.
pub open spec fn attr_lookup(attrs: Seq<(String, String)>, key: Seq<char>) -> Option<Seq<char>>
    decreases attrs.len(),
{
    if attrs.len() == 0 {
        None
    } else if attrs[0].0@ == key {
        Some(attrs[0].1@)
    } else {
        attr_lookup(attrs.drop_first(), key)
    }
}

/// The view of an optional owned string.
pub open spec fn view_opt(o: Option<String>) -> Option<Seq<char>> {
    match o {
        Some(s) => Some(s@),
        None => None,
    }
}

/// Looks a key up among a row's attributes; the first matching pair wins.
pub fn get_attr<'a>(attrs: &'a Vec<(String, String)>, key: &str) -> (r: Option<&'a String>)
    ensures
        view_opt(match r {
            Some(s) => Some(*s),
            None => None,
        }) == attr_lookup(attrs@, key@),
{
    let key_string = String::from_str(key);
    let mut j: usize = 0;
    proof {
        assert(attrs@.skip(0) =~= attrs@);
    }
    while j < attrs.len()
        invariant
            0 <= j <= attrs@.len(),
            key_string@ == key@,
            attr_lookup(attrs@.skip(j as int), key@) == attr_lookup(attrs@, key@),
        decreases attrs@.len() - j,
    {
        proof {
            assert(attrs@.skip(j as int).drop_first() =~= attrs@.skip(j as int + 1));
            assert(attrs@.skip(j as int)[0] == attrs@[j as int]);
        }
        if attrs[j].0 == key_string {
            return Some(&attrs[j].1);
        }
        j = j + 1;
    }
    proof {
        assert(attrs@.skip(attrs@.len() as int) =~= Seq::<(String, String)>::empty());
    }
    None
}

/// The gene identifier of a row: the first present attribute among `Name`,
/// `ID`, `gene_name`, `gene`, `gene_id`, in that priority order.
pub open spec fn gene_name_spec(row: FeatureRow) -> Option<Seq<char>> {
    match attr_lookup(row.attributes@, "Name"@) {
        Some(v) => Some(v),
        None => match attr_lookup(row.attributes@, "ID"@) {
            Some(v) => Some(v),
            None => match attr_lookup(row.attributes@, "gene_name"@) {
                Some(v) => Some(v),
                None => match attr_lookup(row.attributes@, "gene"@) {
                    Some(v) => Some(v),
                    None => attr_lookup(row.attributes@, "gene_id"@),
                },
            },
        },
    }
}

/// The transcript identifier of a row: the first present attribute among
/// `transcript_name`, `transcript`, `Name`, `ID`, `transcript_id`,
/// `gene_name`, `gene`, `gene_id`, in that priority order.
pub open spec fn name_spec(row: FeatureRow) -> Option<Seq<char>> {
    match attr_lookup(row.attributes@, "transcript_name"@) {
        Some(v) => Some(v),
        None => match attr_lookup(row.attributes@, "transcript"@) {
            Some(v) => Some(v),
            None => match attr_lookup(row.attributes@, "Name"@) {
                Some(v) => Some(v),
                None => match attr_lookup(row.attributes@, "ID"@) {
                    Some(v) => Some(v),
                    None => match attr_lookup(row.attributes@, "transcript_id"@) {
                        Some(v) => Some(v),
                        None => match attr_lookup(row.attributes@, "gene_name"@) {
                            Some(v) => Some(v),
                            None => match attr_lookup(row.attributes@, "gene"@) {
                                Some(v) => Some(v),
                                None => attr_lookup(row.attributes@, "gene_id"@),
                            },
                        },
                    },
                },
            },
        },
    }
}

/// Resolves a human-readable gene identifier for an annotation row.
pub fn get_gene_name(row: usize, annot: &AnnotationGraph) -> (r: Option<String>)
    requires
        row < annot.rows@.len(),
    ensures
        view_opt(r) == gene_name_spec(annot.rows@[row as int]),
{
    let feature = &annot.rows[row];
    if let Some(v) = get_attr(&feature.attributes, "Name") {
        return Some(v.clone());
    }
    if let Some(v) = get_attr(&feature.attributes, "ID") {
        return Some(v.clone());
    }
    if let Some(v) = get_attr(&feature.attributes, "gene_name") {
        return Some(v.clone());
    }
    if let Some(v) = get_attr(&feature.attributes, "gene") {
        return Some(v.clone());
    }
    if let Some(v) = get_attr(&feature.attributes, "gene_id") {
        return Some(v.clone());
    }
    None
}

/// Resolves a human-readable transcript identifier for an annotation row.
pub fn get_name(row: usize, annot: &AnnotationGraph) -> (r: Option<String>)
    requires
        row < annot.rows@.len(),
    ensures
        view_opt(r) == name_spec(annot.rows@[row as int]),
{
    let feature = &annot.rows[row];
    if let Some(v) = get_attr(&feature.attributes, "transcript_name") {
        return Some(v.clone());
    }
    if let Some(v) = get_attr(&feature.attributes, "transcript") {
        return Some(v.clone());
    }
    if let Some(v) = get_attr(&feature.attributes, "Name") {
        return Some(v.clone());
    }
    if let Some(v) = get_attr(&feature.attributes, "ID") {
        return Some(v.clone());
    }
    if let Some(v) = get_attr(&feature.attributes, "transcript_id") {
        return Some(v.clone());
    }
    if let Some(v) = get_attr(&feature.attributes, "gene_name") {
        return Some(v.clone());
    }
    if let Some(v) = get_attr(&feature.attributes, "gene") {
        return Some(v.clone());
    }
    if let Some(v) = get_attr(&feature.attributes, "gene_id") {
        return Some(v.clone());
    }
    None
}

/// What a chromosome-name remap table turns a name into: the mapped name
/// where the table has one, else the name itself.
pub open spec fn remap_spec(chrmap: Seq<(String, String)>, name: Seq<char>) -> Seq<char> {
    match attr_lookup(chrmap, name) {
        Some(v) => v,
        None => name,
    }
}

/// Normalizes a chromosome name through the remap table.
pub fn remap_chr(chrmap: &Vec<(String, String)>, name: &String) -> (r: String)
    ensures
        r@ == remap_spec(chrmap@, name@),
{
    let mut j: usize = 0;
    proof {
        assert(chrmap@.skip(0) =~= chrmap@);
    }
    while j < chrmap.len()
        invariant
            0 <= j <= chrmap@.len(),
            attr_lookup(chrmap@.skip(j as int), name@) == attr_lookup(chrmap@, name@),
        decreases chrmap@.len() - j,
    {
        proof {
            assert(chrmap@.skip(j as int).drop_first() =~= chrmap@.skip(j as int + 1));
            assert(chrmap@.skip(j as int)[0] == chrmap@[j as int]);
        }
        if chrmap[j].0 == *name {
            return chrmap[j].1.clone();
        }
        j = j + 1;
    }
    proof {
        assert(chrmap@.skip(chrmap@.len() as int) =~= Seq::<(String, String)>::empty());
    }
    name.clone()
}

} // verus!
