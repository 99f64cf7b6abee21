use vstd::prelude::*;

use crate::error::ParseError;
use crate::text::{
    ends_with, find_char, find_char_in, find_from, piece, range_equals, range_starts_with,
    skip_white, split_all, split_from, starts_with, strip_quotes, to_chars, trim_start,
};

verus! {

/// The text `tag`.
pub open spec fn word_tag() -> Seq<char> {
    seq!['t', 'a', 'g']
}

/// The text `gene`.
pub open spec fn word_gene() -> Seq<char> {
    seq!['g', 'e', 'n', 'e']
}

/// The text `gene_id`.
pub open spec fn word_gene_id() -> Seq<char> {
    seq!['g', 'e', 'n', 'e', '_', 'i', 'd']
}

/// The text `transcript`.
pub open spec fn word_transcript() -> Seq<char> {
    seq!['t', 'r', 'a', 'n', 's', 'c', 'r', 'i', 'p', 't']
}

/// The text `transcript_id`.
pub open spec fn word_transcript_id() -> Seq<char> {
    seq!['t', 'r', 'a', 'n', 's', 'c', 'r', 'i', 'p', 't', '_', 'i', 'd']
}

/// The text `_id`.
pub open spec fn word_id_suffix() -> Seq<char> {
    seq!['_', 'i', 'd']
}

/// How many `tag` attributes one record keeps.
pub const MAX_TAGS: u32 = 6;

/// The key that the `n`-th kept `tag` of a record is stored under: `tag0` to `tag5`.
pub open spec fn tag_key(n: nat) -> Seq<char> {
    let d = if n == 0 {
        '0'
    } else if n == 1 {
        '1'
    } else if n == 2 {
        '2'
    } else if n == 3 {
        '3'
    } else if n == 4 {
        '4'
    } else {
        '5'
    };
    seq!['t', 'a', 'g', d]
}

/// The key of an attribute segment: the text before its first space.
pub open spec fn segment_key(seg: Seq<char>) -> Seq<char> {
    seg.subrange(0, find_from(seg, ' ', 0))
}

/// The raw value of an attribute segment: the text after its first space,
/// or `None` where the segment has no space.
pub open spec fn segment_value(seg: Seq<char>) -> Option<Seq<char>> {
    let i = find_from(seg, ' ', 0);
    if i < seg.len() {
        Some(seg.subrange(i + 1, seg.len() as int))
    } else {
        None
    }
}

/// Whether a key is left out of records of `feature`: keys that start with
/// `gene` other than `gene_id` belong to gene records only, and those that
/// start with `transcript` other than `transcript_id` to transcript records only.
pub open spec fn suppressed(key: Seq<char>, feature: Seq<char>) -> bool {
    (starts_with(key, word_gene()) && key != word_gene_id() && feature != word_gene()) || (
    starts_with(key, word_transcript()) && key != word_transcript_id() && feature
        != word_transcript())
}

/// Whether a key names an identifier column (it ends in `_id`); such
/// columns keep their strings as they are.
pub open spec fn is_id_key(key: Seq<char>) -> bool {
    ends_with(key, word_id_suffix())
}

/// What one segment `seg` (without its leading white space) of a record of
/// `feature` gives, after `tags` tags were kept before it: the pair it
/// adds, if any, and the number of tags kept with it; `None` where it is
/// kept but has no value.
pub open spec fn segment_rule(seg: Seq<char>, feature: Seq<char>, tags: nat) -> Option<
    (Option<(Seq<char>, Seq<char>)>, nat),
> {
    let raw = segment_key(seg);
    let is_tag = raw == word_tag();
    if seg.len() == 0 || (is_tag && (feature != word_transcript() || tags >= MAX_TAGS)) {
        Some((None, tags))
    } else {
        let key = if is_tag {
            tag_key(tags)
        } else {
            raw
        };
        let next_tags = if is_tag {
            tags + 1
        } else {
            tags
        };
        if suppressed(key, feature) {
            Some((None, next_tags))
        } else {
            match segment_value(seg) {
                None => None,
                Some(v) => Some((Some((key, strip_quotes(v))), next_tags)),
            }
        }
    }
}

/// The key/value pairs that the segments `segs[j..]` of a record of `feature`
/// give, after `tags` tags were kept before them; `None` where one of them
/// is malformed.
pub open spec fn rule_pairs(segs: Seq<Seq<char>>, feature: Seq<char>, j: int, tags: nat) -> Option<
    Seq<(Seq<char>, Seq<char>)>,
>
    decreases segs.len() - j,
{
    if j < 0 || j >= segs.len() {
        Some(Seq::empty())
    } else {
        match segment_rule(trim_start(segs[j]), feature, tags) {
            None => None,
            Some(step) => match rule_pairs(segs, feature, j + 1, step.1) {
                None => None,
                Some(rest) => match step.0 {
                    Some(p) => Some(seq![p] + rest),
                    None => Some(rest),
                },
            },
        }
    }
}

/// The key/value pairs of the attributes field `attrs` of a record of
/// `feature`, in the order of the field, or `None` where it is malformed.
pub open spec fn attribute_pairs(attrs: Seq<char>, feature: Seq<char>) -> Option<
    Seq<(Seq<char>, Seq<char>)>,
> {
    rule_pairs(split_all(attrs, ';'), feature, 0, 0)
}

/// Pairs of strings as pairs of character sequences.
pub open spec fn pairs_view(v: Seq<(String, String)>) -> Seq<(Seq<char>, Seq<char>)> {
    v.map_values(|p: (String, String)| (p.0@, p.1@))
}

/// `acc` in front of what `rest` holds, where it holds anything.
pub open spec fn prepend<T>(acc: Seq<T>, rest: Option<Seq<T>>) -> Option<Seq<T>> {
    match rest {
        Some(r) => Some(acc + r),
        None => None,
    }
}

/// The stored key of the `n`-th kept tag.
fn tag_key_string(n: u32) -> (r: String)
    requires
        n < MAX_TAGS,
    ensures
        r@ == tag_key(n as nat),
{
    proof {
        reveal_strlit("tag0");
        reveal_strlit("tag1");
        reveal_strlit("tag2");
        reveal_strlit("tag3");
        reveal_strlit("tag4");
        reveal_strlit("tag5");
    }
    let r = if n == 0 {
        "tag0".to_owned()
    } else if n == 1 {
        "tag1".to_owned()
    } else if n == 2 {
        "tag2".to_owned()
    } else if n == 3 {
        "tag3".to_owned()
    } else if n == 4 {
        "tag4".to_owned()
    } else {
        "tag5".to_owned()
    };
    assert(r@ =~= tag_key(n as nat));
    r
}

/// Whether the key `s[a..b]` is left out of records of a feature that is
/// (or is not) `gene` and `transcript`.
fn is_suppressed(s: &Vec<char>, a: usize, b: usize, feature_is_gene: bool, feature_is_transcript: bool)
    -> (r: bool)
    requires
        a <= b <= s@.len(),
    ensures
        forall|f: Seq<char>|
            (f == word_gene()) == feature_is_gene && (f == word_transcript())
                == feature_is_transcript ==> r == #[trigger] suppressed(
                s@.subrange(a as int, b as int),
                f,
            ),
{
    let gene = vec!['g', 'e', 'n', 'e'];
    let gene_id = vec!['g', 'e', 'n', 'e', '_', 'i', 'd'];
    let transcript = vec!['t', 'r', 'a', 'n', 's', 'c', 'r', 'i', 'p', 't'];
    let transcript_id = vec!['t', 'r', 'a', 'n', 's', 'c', 'r', 'i', 'p', 't', '_', 'i', 'd'];
    assert(gene@ =~= word_gene());
    assert(gene_id@ =~= word_gene_id());
    assert(transcript@ =~= word_transcript());
    assert(transcript_id@ =~= word_transcript_id());
    (range_starts_with(s, a, b, &gene) && !range_equals(s, a, b, &gene_id) && !feature_is_gene)
        || (range_starts_with(s, a, b, &transcript) && !range_equals(s, a, b, &transcript_id)
        && !feature_is_transcript)
}

/// What the segment `s[start..end]` of the attributes field `attributes`
/// (whose characters are `s`) gives, as `segment_rule` says.
fn apply_segment(
    attributes: &str,
    s: &Vec<char>,
    start: usize,
    end: usize,
    is_gene: bool,
    is_transcript: bool,
    tags: u32,
) -> (r: Option<(Option<(String, String)>, u32)>)
    requires
        s@ == attributes@,
        start <= end <= s@.len(),
        tags <= MAX_TAGS,
    ensures
        forall|f: Seq<char>|
            (f == word_gene()) == is_gene && (f == word_transcript()) == is_transcript ==> {
                let spec_r = #[trigger] segment_rule(
                    trim_start(s@.subrange(start as int, end as int)),
                    f,
                    tags as nat,
                );
                match r {
                    None => spec_r is None,
                    Some(x) => spec_r is Some && x.1 <= MAX_TAGS && {
                        let sx = spec_r->0;
                        &&& sx.1 == x.1 as nat
                        &&& match x.0 {
                            None => sx.0 is None,
                            Some(p) => sx.0 == Some((p.0@, p.1@)),
                        }
                    },
                }
            },
{
    let tag = vec!['t', 'a', 'g'];
    assert(tag@ =~= word_tag());
    let ts = skip_white(s, start, end);
    let ghost seg = s@.subrange(ts as int, end as int);
    assert(trim_start(s@.subrange(start as int, end as int)) =~= seg);
    if ts == end {
        return Some((None, tags));
    }
    let sp = find_char_in(s, ' ', ts, end);
    assert(segment_key(seg) =~= s@.subrange(ts as int, sp as int));
    let is_tag = range_equals(s, ts, sp, &tag);
    if is_tag && (!is_transcript || tags >= MAX_TAGS) {
        return Some((None, tags));
    }
    let key = if is_tag {
        tag_key_string(tags)
    } else {
        piece(attributes, s, ts, sp)
    };
    let next_tags = if is_tag {
        tags + 1
    } else {
        tags
    };
    let sup = if is_tag {
        proof {
            let kk = tag_key(tags as nat);
            assert(kk.subrange(0, 4)[0] == kk[0]);
            assert(kk.subrange(0, 4) != word_gene());
            assert(!starts_with(kk, word_gene()));
            assert(!starts_with(kk, word_transcript()));
        }
        false
    } else {
        is_suppressed(s, ts, sp, is_gene, is_transcript)
    };
    if sup {
        return Some((None, next_tags));
    }
    if sp >= end {
        return None;
    }
    let mut a = sp + 1;
    let mut b = end;
    let ghost v = s@.subrange(a as int, b as int);
    assert(segment_value(seg) == Some(v));
    if a < b && s[a] == '"' {
        a = a + 1;
    }
    let ghost va = s@.subrange(a as int, b as int);
    assert(va =~= (if v.len() > 0 && v[0] == '"' {
        v.subrange(1, v.len() as int)
    } else {
        v
    }));
    if a < b && s[b - 1] == '"' {
        b = b - 1;
        assert(s@.subrange(a as int, b as int) =~= va.drop_last());
    }
    assert(s@.subrange(a as int, b as int) == strip_quotes(v));
    let value = piece(attributes, s, a, b);
    Some((Some((key, value)), next_tags))
}

/// Splitting from `start` with `fuel` pieces left always gives one piece at least.
proof fn lemma_split_nonempty(s: Seq<char>, c: char, start: int, fuel: nat)
    ensures
        split_from(s, c, start, fuel).len() >= 1,
{
}

/// The key/value pairs of a GTF attributes field such as
/// `gene_id "G1"; gene_name "Foo";` on a record of `feature`.
///
/// The field is cut at each `;`; each piece loses its leading white space,
/// and empty pieces are skipped. A piece is a key, a space and a value, the
/// value without one enclosing pair of quotes. A `tag` is kept on transcript
/// records only, at most six times per record, as `tag0` to `tag5`. Keys
/// that start with `gene` (but `gene_id`) are kept on gene records only, and
/// those that start with `transcript` (but `transcript_id`) on transcript
/// records only. A kept piece without a value makes the record malformed.
pub fn parse_attributes(attributes: &str, feature: &str) -> (r: Result<
    Vec<(String, String)>,
    ParseError,
>)
    ensures
        match attribute_pairs(attributes@, feature@) {
            Some(p) => r is Ok && pairs_view(r->Ok_0@) == p,
            None => r == Err::<Vec<(String, String)>, ParseError>(ParseError::MalformedRecord),
        },
{
    let s = to_chars(attributes);
    let f = to_chars(feature);
    let gene = vec!['g', 'e', 'n', 'e'];
    let transcript = vec!['t', 'r', 'a', 'n', 's', 'c', 'r', 'i', 'p', 't'];
    assert(gene@ =~= word_gene());
    assert(transcript@ =~= word_transcript());
    assert(f@.subrange(0, f@.len() as int) =~= f@);
    let is_gene = range_equals(&f, 0, f.len(), &gene);
    let is_transcript = range_equals(&f, 0, f.len(), &transcript);
    let ghost segs = split_all(s@, ';');
    let ghost total = attribute_pairs(attributes@, feature@);
    let mut out: Vec<(String, String)> = Vec::new();
    let mut start: usize = 0;
    let mut k: usize = 0;
    let mut tags: u32 = 0;
    proof {
        assert(segs.take(0) + split_from(s@, ';', 0, (s@.len() + 1) as nat) =~= segs);
        lemma_split_nonempty(s@, ';', 0, (s@.len() + 1) as nat);
    }
    loop
        invariant
            start <= s@.len(),
            k <= start,
            k < segs.len(),
            tags <= MAX_TAGS,
            s@ == attributes@,
            is_gene == (feature@ == word_gene()),
            is_transcript == (feature@ == word_transcript()),
            segs == split_all(s@, ';'),
            total == attribute_pairs(attributes@, feature@),
            segs == segs.take(k as int) + split_from(s@, ';', start as int, (s@.len() + 1 - k) as nat),
            total == prepend(pairs_view(out@), rule_pairs(segs, feature@, k as int, tags as nat)),
        decreases s@.len() + 1 - k,
    {
        let i = find_char(&s, ';', start);
        let ghost seg = s@.subrange(start as int, i as int);
        let ghost fuel = (s@.len() + 1 - k) as nat;
        let ghost rest = split_from(s@, ';', start as int, fuel);
        proof {
            assert(rest[0] == seg);
            assert(segs.take(k as int).len() == k);
            assert(segs[k as int] == rest[0]);
        }
        let step = apply_segment(attributes, &s, start, i, is_gene, is_transcript, tags);
        let ghost before = pairs_view(out@);
        let ghost spec_step = segment_rule(trim_start(seg), feature@, tags as nat);
        match step {
            None => {
                assert(rule_pairs(segs, feature@, k as int, tags as nat) is None);
                return Err(ParseError::MalformedRecord);
            },
            Some((p, next_tags)) => {
                let ghost after = rule_pairs(segs, feature@, k + 1, next_tags as nat);
                match p {
                    Some(kv) => {
                        out.push(kv);
                        proof {
                            let sx = spec_step->0;
                            let x = sx.0->0;
                            assert(pairs_view(out@) =~= before.push(x));
                            match after {
                                Some(y) => {
                                    assert(before + (seq![x] + y) =~= pairs_view(out@) + y);
                                },
                                None => {},
                            }
                        }
                    },
                    None => {},
                }
                if i >= s.len() {
                    proof {
                        assert(segs.len() == k + 1);
                        assert(pairs_view(out@) + Seq::<(Seq<char>, Seq<char>)>::empty()
                            =~= pairs_view(out@));
                    }
                    return Ok(out);
                }
                proof {
                    assert(fuel > 1);
                    let rest2 = split_from(s@, ';', i + 1, (fuel - 1) as nat);
                    assert(rest =~= seq![seg] + rest2);
                    assert(segs.take(k + 1) =~= segs.take(k as int).push(seg));
                    assert(segs =~= segs.take(k + 1) + rest2);
                    lemma_split_nonempty(s@, ';', i + 1, (fuel - 1) as nat);
                }
                start = i + 1;
                k = k + 1;
                tags = next_tags;
            },
        }
    }
}

} // verus!
