//! Per-type rendering rules for a consumer: how objects of one declared
//! type are drawn. Only the record itself lives here; reading rule files
//! belongs to the consumer, which is outside the system's scope.

use vstd::prelude::*;

verus! {

/// The shape an object is drawn as.
#[derive(Debug, Clone)]
pub enum Geometry {
    Square,
    Cube,
}

/// The ghost shape of a type's rendering rules.
pub ghost struct TypeInfoView {
    pub texture: Seq<char>,
    pub model: Geometry,
    pub keys: Set<Seq<char>>,
    pub color: (u8, u8, u8),
}

/// The names a list of strings holds.
pub open spec fn names_of(keys: Seq<Seq<char>>) -> Set<Seq<char>> {
    Set::new(|q: Seq<char>| exists|k: int| 0 <= k < keys.len() && keys[k] == q)
}

/// The rendering rules for one declared object type: its texture, its
/// shape, the key names it reacts to, and its colour.
pub struct TypeInfo {
    texture: String,
    model: Geometry,
    keys: Vec<String>,
    color: (u8, u8, u8),
}

impl View for TypeInfo {
    type V = TypeInfoView;

    closed spec fn view(&self) -> TypeInfoView {
        TypeInfoView {
            texture: self.texture@,
            model: self.model,
            keys: names_of(self.keys@.map_values(|s: String| s@)),
            color: self.color,
        }
    }
}

impl TypeInfo {
    /// The default rules: no texture, a flat square, no keys, dark grey.
    pub fn new() -> (r: TypeInfo)
        ensures
            r@ == (TypeInfoView {
                texture: Seq::<char>::empty(),
                model: Geometry::Square,
                keys: Set::<Seq<char>>::empty(),
                color: (30u8, 30u8, 30u8),
            }),
    {
        let r = TypeInfo {
            texture: String::new(),
            model: Geometry::Square,
            keys: Vec::new(),
            color: (30, 30, 30),
        };
        proof {
            assert(r@.keys =~= Set::<Seq<char>>::empty());
        }
        r
    }

    pub fn set_texture(&mut self, filename: &str)
        ensures
            final(self)@ == (TypeInfoView { texture: filename@, ..old(self)@ }),
    {
        self.texture = filename.to_owned();
    }

    /// Accepts the two known shape names and ignores anything else.
    pub fn set_model(&mut self, model: &str)
        ensures
            final(self)@ == (TypeInfoView {
                model: if model@ == "square"@ {
                    Geometry::Square
                } else if model@ == "cube"@ {
                    Geometry::Cube
                } else {
                    old(self)@.model
                },
                ..old(self)@
            }),
    {
        if crate::messages::str_eq_str(model, "square") {
            self.model = Geometry::Square;
        } else if crate::messages::str_eq_str(model, "cube") {
            self.model = Geometry::Cube;
        }
    }

    /// Adds key names; a name already present stays present.
    pub fn add_keys(&mut self, keys: Vec<&str>)
        ensures
            final(self)@ == (TypeInfoView {
                keys: old(self)@.keys + names_of(keys@.map_values(|s: &str| s@)),
                ..old(self)@
            }),
    {
        let ghost added = keys@.map_values(|s: &str| s@);
        let n = keys.len();
        let mut k: usize = 0;
        proof {
            assert(self@.keys =~= old(self)@.keys + names_of(added.take(0)));
        }
        while k < n
            invariant
                k <= n == added.len(),
                added == keys@.map_values(|s: &str| s@),
                self@.texture == old(self)@.texture,
                self@.model == old(self)@.model,
                self@.color == old(self)@.color,
                self@.keys == old(self)@.keys + names_of(added.take(k as int)),
            decreases n - k,
        {
            let ghost pre = self.keys@.map_values(|s: String| s@);
            self.keys.push(keys[k].to_owned());
            proof {
                let post = self.keys@.map_values(|s: String| s@);
                assert(post =~= pre.push(added[k as int]));
                assert(names_of(pre) == old(self)@.keys + names_of(added.take(k as int)));
                assert forall|q: Seq<char>| names_of(post).contains(q) implies (old(
                    self,
                )@.keys + names_of(added.take(k + 1))).contains(q) by {
                    let w = choose|w: int| 0 <= w < post.len() && post[w] == q;
                    if w < pre.len() {
                        assert(pre[w] == q);
                        assert(names_of(pre).contains(q));
                    } else {
                        assert(added.take(k + 1)[k as int] == q);
                        assert(names_of(added.take(k + 1)).contains(q));
                    }
                }
                assert forall|q: Seq<char>| (old(self)@.keys + names_of(
                    added.take(k + 1),
                )).contains(q) implies names_of(post).contains(q) by {
                    if old(self)@.keys.contains(q) {
                        assert(names_of(pre).contains(q));
                        let w = choose|w: int| 0 <= w < pre.len() && pre[w] == q;
                        assert(post[w] == q);
                    } else {
                        let taken = added.take(k + 1);
                        let w = choose|w: int| 0 <= w < taken.len() && #[trigger] taken[w] == q;
                        if w < k {
                            assert(added.take(k as int)[w] == q);
                            assert(names_of(added.take(k as int)).contains(q));
                            assert(names_of(pre).contains(q));
                            let u = choose|u: int| 0 <= u < pre.len() && #[trigger] pre[u] == q;
                            assert(post[u] == q);
                        } else {
                            assert(post[pre.len() as int] == q);
                        }
                    }
                }
                assert(self@.keys =~= old(self)@.keys + names_of(added.take(k + 1)));
            }
            k = k + 1;
        }
        proof {
            assert(added.take(n as int) =~= added);
        }
    }

    /// Takes a colour as three decimal components; a component that does
    /// not spell a byte value leaves the colour unchanged.
    pub fn set_color(&mut self, red: &str, green: &str, blue: &str)
        ensures
            final(self)@ == (TypeInfoView {
                color: match (
                    spec_u8_value(vstd::utf8::encode_utf8(red@)),
                    spec_u8_value(vstd::utf8::encode_utf8(green@)),
                    spec_u8_value(vstd::utf8::encode_utf8(blue@)),
                ) {
                    (Some(r), Some(g), Some(b)) => (r, g, b),
                    _ => old(self)@.color,
                },
                ..old(self)@
            }),
    {
        let red = parse_u8_decimal(red);
        let green = parse_u8_decimal(green);
        let blue = parse_u8_decimal(blue);
        match (red, green, blue) {
            (Some(r), Some(g), Some(b)) => {
                self.color = (r, g, b);
            },
            _ => {},
        }
    }
}

/// The byte value a decimal numeral spells, when it spells one that
/// fits.
pub open spec fn spec_u8_value(s: Seq<u8>) -> Option<u8> {
    if crate::is_u32_numeral(s) && crate::u32_numeral_value(s) <= 255 {
        Some(crate::u32_numeral_value(s) as u8)
    } else {
        None
    }
}

/// Parses a byte-sized decimal numeral.
fn parse_u8_decimal(s: &str) -> (r: Option<u8>)
    ensures
        r == spec_u8_value(vstd::utf8::encode_utf8(s@)),
{
    match crate::parse_u32_decimal(s.as_bytes()) {
        Some(v) => if v <= 255 {
            Some(v as u8)
        } else {
            None
        },
        None => None,
    }
}

} // verus!
