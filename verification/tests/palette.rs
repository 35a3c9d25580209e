use rustdatabasen::chars::{chars_of, contains, split_chars, string_of, to_lower, trim, words_of};
use rustdatabasen::palette::{
    choose_palette, generate_desig, palette_named, parse_rgb, render_design, Palette,
};

fn four(a: &str, b: &str, c: &str, d: &str) -> (String, String, String, String) {
    (a.to_string(), b.to_string(), c.to_string(), d.to_string())
}

#[test]
fn each_palette_is_chosen_by_its_key_words() {
    assert_eq!(choose_palette("dark"), four("20,20,20", "230,230,235", "30,30,30", "24,24,24"));
    assert_eq!(
        choose_palette("blue"),
        four("200,220,240", "10,20,40", "210,225,245", "205,222,242")
    );
    assert_eq!(choose_palette("red"), four("240,220,220", "80,20,20", "245,225,225", "242,222,222"));
    assert_eq!(
        choose_palette("green"),
        four("220,240,220", "20,60,20", "225,245,225", "222,242,222")
    );
    assert_eq!(choose_palette("warm"), four("255,247,237", "60,40,20", "255,238,210", "255,245,230"));
    assert_eq!(
        choose_palette("pastel"),
        four("250,250,255", "40,40,60", "245,245,255", "235,250,245")
    );
    assert_eq!(choose_palette("neon"), four("5,5,10", "200,255,220", "20,20,30", "10,10,20"));
    assert_eq!(choose_palette("gray"), four("180,180,180", "40,40,40", "190,190,190", "185,185,185"));
    assert_eq!(
        choose_palette("modern"),
        four("230,235,240", "20,25,30", "240,242,245", "235,238,242")
    );
    assert_eq!(choose_palette(""), four("230,235,240", "20,25,30", "240,242,245", "235,238,242"));
}

#[test]
fn every_key_word_names_its_palette() {
    let groups: [(&[&str], Palette); 8] = [
        (&["dark", "noir", "mörk", "svart", "black"], Palette::Dark),
        (&["blå", "blue", "blått"], Palette::Blue),
        (&["röd", "red", "rött"], Palette::Red),
        (&["grön", "green", "grönt"], Palette::Green),
        (&["warm", "orange", "sun", "gul", "yellow"], Palette::Warm),
        (&["pastel", "soft", "ljus", "light"], Palette::Pastel),
        (&["neon", "cyber", "stark", "bright"], Palette::Neon),
        (&["grå", "gray", "grey", "grått"], Palette::Gray),
    ];
    for (words, palette) in groups {
        for word in words {
            assert_eq!(palette_named(word), palette);
            assert_eq!(palette_named(&format!("en {} design", word)), palette);
        }
    }
    assert_eq!(palette_named("nothing"), Palette::Neutral);
}

#[test]
fn the_prompt_is_taken_in_lower_case_and_the_first_group_wins() {
    assert_eq!(choose_palette("MÖRK BLÅ").0, "20,20,20");
    assert_eq!(choose_palette("Ljus Grön").0, "220,240,220");
    assert_eq!(choose_palette("en BLÅ himmel").0, "200,220,240");
    assert_eq!(choose_palette("soft red").0, "240,220,220");
    assert_eq!(choose_palette("sunred").0, "240,220,220");
    assert_eq!(choose_palette("bright sun").0, "255,247,237");
    assert_eq!(palette_named("DARK"), Palette::Neutral);
}

#[test]
fn a_colour_is_read_from_three_numbers() {
    assert_eq!(parse_rgb("20,20,20"), (20, 20, 20));
    assert_eq!(parse_rgb("0,128,255"), (0, 128, 255));
    assert_eq!(parse_rgb(" 1 ,\t2\n, 3 "), (1, 2, 3));
    assert_eq!(parse_rgb("\u{a0}7\u{3000},+8,009"), (7, 8, 9));
}

#[test]
fn fields_that_are_no_numbers_count_as_zero() {
    assert_eq!(parse_rgb("256,-1,x"), (0, 0, 0));
    assert_eq!(parse_rgb(",,"), (0, 0, 0));
    assert_eq!(parse_rgb("1 2,3,4"), (0, 3, 4));
    assert_eq!(parse_rgb("1,2,3é"), (1, 2, 0));
    assert_eq!(parse_rgb("1,2,٣"), (1, 2, 0));
    assert_eq!(parse_rgb("255,1e1,0x10"), (255, 0, 0));
}

#[test]
fn a_text_without_three_fields_is_light_gray() {
    assert_eq!(parse_rgb(""), (200, 200, 200));
    assert_eq!(parse_rgb("1,2"), (200, 200, 200));
    assert_eq!(parse_rgb("1,2,3,4"), (200, 200, 200));
    assert_eq!(parse_rgb("1;2;3"), (200, 200, 200));
}

#[test]
fn every_palette_text_is_read_as_its_numbers() {
    let (bg, text, even, odd) = choose_palette("neon");
    assert_eq!(parse_rgb(&bg), (5, 5, 10));
    assert_eq!(parse_rgb(&text), (200, 255, 220));
    assert_eq!(parse_rgb(&even), (20, 20, 30));
    assert_eq!(parse_rgb(&odd), (10, 10, 20));
}

#[test]
fn the_design_file_lists_the_colours() {
    assert_eq!(
        render_design((1, 2, 3), (40, 50, 60), "12.5", (0, 0, 0), (255, 255, 255)),
        "bg: [1,2,3]\ntext: [40,50,60]\nheading_size: 12.5\nrow_even: [0,0,0]\nrow_odd: [255,255,255]\n"
    );
    assert_eq!(
        generate_desig("mörk"),
        "bg: [20,20,20]\ntext: [230,230,235]\nheading_size: 18.0\nrow_even: [30,30,30]\nrow_odd: [24,24,24]\n"
    );
    assert_eq!(
        generate_desig("whatever"),
        "bg: [230,235,240]\ntext: [20,25,30]\nheading_size: 18.0\nrow_even: [240,242,245]\nrow_odd: [235,238,242]\n"
    );
}

#[test]
fn texts_are_trimmed_split_and_searched() {
    let c = chars_of(" \t two  words\u{2003}\n");
    assert_eq!(string_of(trim(&c)), "two  words");
    assert_eq!(words_of(&c), vec!["two".to_string(), "words".to_string()]);
    assert_eq!(words_of(&chars_of("")), Vec::<String>::new());
    assert_eq!(words_of(&chars_of(" \n ")), Vec::<String>::new());
    assert_eq!(words_of(&chars_of("one")), vec!["one".to_string()]);
    assert_eq!(string_of(trim(&chars_of("   "))), "");
    assert_eq!(string_of(trim(&chars_of("x"))), "x");
    let parts = split_chars(&chars_of("a,b,,c"), ',');
    assert_eq!(parts.len(), 4);
    assert_eq!(string_of(&parts[0]), "a");
    assert_eq!(string_of(&parts[2]), "");
    assert!(contains(&chars_of("en blå himmel"), &chars_of("blå")));
    assert!(contains(&chars_of("abc"), &chars_of("")));
    assert!(contains(&chars_of("abc"), &chars_of("abc")));
    assert!(!contains(&chars_of("abc"), &chars_of("abcd")));
    assert!(!contains(&chars_of("abab"), &chars_of("bb")));
    assert_eq!(to_lower("MÖRK Blå"), "mörk blå");
    assert_eq!(chars_of("blå").len(), 3);
}

#[test]
fn white_space_is_what_the_standard_library_calls_so() {
    let mut c = 0u32;
    while c <= 0x3100 {
        if let Some(ch) = char::from_u32(c) {
            assert_eq!(rustdatabasen::chars::char_is_space(ch), ch.is_whitespace());
        }
        c += 1;
    }
}
