use colorutils_rs::{Hsl, Hsv, Lab, Luv, Rgb};

fn close(a: Rgb<u8>, b: Rgb<u8>) -> bool {
    (a.r as i32 - b.r as i32).abs() <= 1 && (a.g as i32 - b.g as i32).abs() <= 1 && (a.b as i32 - b.b as i32).abs() <= 1
}

fn samples() -> Vec<Rgb<u8>> {
    let mut out = Vec::new();
    let steps: Vec<u8> = (0..=255u32).step_by(17).map(|v| v as u8).collect();
    for &r in &steps {
        for &g in &steps {
            for &b in &steps {
                out.push(Rgb::new(r, g, b));
            }
        }
    }
    out
}

#[test]
fn lab_round_trip_within_one() {
    for c in samples() {
        let back = Lab::from_rgb(c).to_rgb();
        assert!(close(c, back), "{:?} -> {:?}", (c.r, c.g, c.b), (back.r, back.g, back.b));
    }
}

#[test]
fn luv_round_trip_within_one() {
    for c in samples() {
        let back = Luv::from_rgb(c).to_rgb();
        assert!(close(c, back), "{:?} -> {:?}", (c.r, c.g, c.b), (back.r, back.g, back.b));
    }
}

#[test]
fn hsv_round_trip_within_one() {
    for c in samples() {
        let back = Hsv::from(c).to_rgb8();
        assert!(close(c, back), "{:?} -> {:?}", (c.r, c.g, c.b), (back.r, back.g, back.b));
    }
}

/// colorutils leaves the saturation of white undefined (0 / 0); a grey has none.
fn hsl_of(c: Rgb<u8>) -> Hsl {
    let hsl = Hsl::from_rgb(c);
    if hsl.s.is_nan() {
        Hsl::from_components(hsl.h, 0f32, hsl.l)
    } else {
        hsl
    }
}

#[test]
fn hsl_round_trip_within_one() {
    for c in samples() {
        let back = hsl_of(c).to_rgb();
        assert!(close(c, back), "{:?} -> {:?}", (c.r, c.g, c.b), (back.r, back.g, back.b));
    }
}
