use zellij_command_hook::nvim::could_be_filename;
use zellij_command_hook::nvim::format_nvim;

#[test]
fn test_looks_like_filename() {
    let cases = [
        ("", true),
        ("foo.txt", true),
        ("a/b/c/foo.txt", true),
        ("..", true),
        (".", true),
        ("valid_name.rs", true),
        ("inva|id.txt", false),
        ("another:bad?.txt", false),
        ("just_a_name", true),
        ("\0invalid", false),
        (
            "lua vim.opt.packpath:prepend('/nix/store/142frdk214ir45zhxynmhpvh50khnc09-mnw-configDir');vim.opt.runtimepath:prepend('/nix/store/142frdk214ir45zhxynmhpvh50khnc09-mnw-configDir');vim.g.loaded_node_provider=0;vim.g.loaded_perl_provider=0;vim.g.loaded_python_provider=0;vim.g.loaded_python3_provider=0;vim.g.ruby_host_prog='/nix/store/vycxz6dfdb34mdcz0x15fflyqxavdz05-neovim-providers/bin/neovim-ruby-host'",
            false,
        ),
    ];
    for (input, expected) in cases.iter() {
        assert_eq!(
            could_be_filename(input),
            *expected,
            "Failed on input: {input}"
        );
    }
}

#[test]
fn test_format_nvim() {
    let cases = [
        (
            "/home/zach/.nix-profile/bin/nvim --cmd lua vim.opt.packpath:prepend('/nix/store/7fcfmii0vli2ncrgw8phdj1r7zcxf0fc-mnw-configDir');vim.opt.runtimepath:prepend('/nix/store/7fcfmii0vli2ncrgw8phdj1r7zcxf0fc-mnw-configDir');vim.g.loaded_node_provider=0;vim.g.loaded_perl_provider=0;vim.g.loaded_python_provider=0;vim.g.loaded_python3_provider=0;vim.g.ruby_host_prog='/nix/store/4pm6h00i8jizd1vcfh90gkfsipd634rc-neovim-providers/bin/neovim-ruby-host' asdf3 asdf4",
            "nvim asdf3 asdf4",
        ),
        ("nvim asdf", "nvim asdf"),
    ];

    for (input, expected) in cases.iter() {
        assert_eq!(format_nvim(input), *expected, "Failed on input: {input}");
    }
}

#[test]
fn test_extract_files_from_formatted() {
    // Test inline extraction logic
    assert_eq!(
        "nvim file.txt".strip_prefix("nvim ").unwrap_or(""),
        "file.txt"
    );
    assert_eq!(
        "nvim file1.rs file2.rs".strip_prefix("nvim ").unwrap_or(""),
        "file1.rs file2.rs"
    );
    assert_eq!("nvim ".strip_prefix("nvim ").unwrap_or(""), "");
    assert_eq!("something else".strip_prefix("nvim ").unwrap_or(""), "");
}

#[test]
fn test_format_nvim_no_files() {
    assert_eq!(format_nvim("/usr/bin/nvim"), "nvim");
    assert_eq!(format_nvim("nvim"), "nvim");
}

#[test]
fn test_format_nvim_passthrough() {
    assert_eq!(format_nvim("bacon --headless"), "bacon --headless");
    assert_eq!(format_nvim("something else"), "something else");
    assert_eq!(format_nvim(""), "");
}

#[test]
fn test_format_nvim_stops_at_flag() {
    // the trailing run ends where a flag or a non-filename token begins
    assert_eq!(format_nvim("nvim -f a.txt b.txt"), "nvim a.txt b.txt");
    assert_eq!(format_nvim("/opt/nvim --clean x=1 f.rs"), "nvim f.rs");
    assert_eq!(format_nvim("nvim.exe notes.md"), "nvim notes.md");
}

#[test]
fn test_classifier_boundary() {
    for good in ["", ".", "..", "a/b/c/foo.txt"] {
        assert!(could_be_filename(good), "Failed on input: {good}");
    }
    for bad in [
        "a<b", "a>b", "a\"b", "a:b", "a|b", "a?b", "a;b", "a=b", "\0",
    ] {
        assert!(!could_be_filename(bad), "Failed on input: {bad}");
    }
}
