use pixls_colordata::database::{Company, DirEntry, EntryKind, Model, PixlsDatabase};

fn entry(path: &str, stem: &str, kind: EntryKind, entries: Vec<DirEntry>) -> DirEntry {
    DirEntry { path: path.to_string(), stem: stem.to_string(), kind, entries }
}

fn dir(path: &str, stem: &str, entries: Vec<DirEntry>) -> DirEntry {
    entry(path, stem, EntryKind::Directory, entries)
}

fn file(path: &str, stem: &str) -> DirEntry {
    entry(path, stem, EntryKind::File, vec![])
}

fn company_names(db: &PixlsDatabase) -> Vec<String> {
    db.company_iter().map(|c| c.name.clone()).collect()
}

fn model_names(company: &Company) -> Vec<String> {
    company.model_iter().map(|m| m.name.clone()).collect()
}

fn images(model: &Model) -> Vec<String> {
    model.image_iter().cloned().collect()
}

#[test]
fn empty_root_gives_empty_catalogue() {
    let db = PixlsDatabase::from_listing(&vec![]);
    assert_eq!(db.company_iter().count(), 0);
}

#[test]
fn companies_come_sorted_by_name() {
    let root = vec![
        dir("/a/Sony", "Sony", vec![]),
        dir("/a/Canon", "Canon", vec![]),
        dir("/a/Nikon", "Nikon", vec![]),
        dir("/a/Apple", "Apple", vec![]),
    ];
    let db = PixlsDatabase::from_listing(&root);
    assert_eq!(company_names(&db), vec!["Apple", "Canon", "Nikon", "Sony"]);
}

#[test]
fn names_are_ordered_by_code_point() {
    let root = vec![
        dir("/a/canon", "canon", vec![]),
        dir("/a/Zeiss", "Zeiss", vec![]),
        dir("/a/Canon", "Canon", vec![]),
        dir("/a/Can", "Can", vec![]),
        dir("/a/Ärger", "Ärger", vec![]),
        dir("/a/", "", vec![]),
    ];
    let db = PixlsDatabase::from_listing(&root);
    let mut expected: Vec<String> =
        root.iter().map(|e| e.stem.clone()).collect();
    expected.sort();
    assert_eq!(company_names(&db), expected);
    assert_eq!(company_names(&db), vec!["", "Can", "Canon", "Zeiss", "canon", "Ärger"]);
}

#[test]
fn companies_of_one_name_keep_their_listing_order() {
    let root = vec![
        dir("/a/Canon.old", "Canon", vec![dir("/a/Canon.old/first", "first", vec![])]),
        dir("/a/Apple", "Apple", vec![]),
        dir("/a/Canon", "Canon", vec![dir("/a/Canon/second", "second", vec![])]),
    ];
    let db = PixlsDatabase::from_listing(&root);
    assert_eq!(company_names(&db), vec!["Apple", "Canon", "Canon"]);
    let companies: Vec<&Company> = db.company_iter().collect();
    assert_eq!(model_names(companies[1]), vec!["first"]);
    assert_eq!(model_names(companies[2]), vec!["second"]);
}

#[test]
fn regular_archive_is_kept_whole() {
    let root = vec![
        dir(
            "/a/Nikon",
            "Nikon",
            vec![
                dir("/a/Nikon/D90", "D90", vec![file("/a/Nikon/D90/z.nef", "z"), file("/a/Nikon/D90/a.nef", "a")]),
                dir("/a/Nikon/D3", "D3", vec![]),
            ],
        ),
        dir(
            "/a/Canon",
            "Canon",
            vec![dir("/a/Canon/EOS100", "EOS100", vec![file("/a/Canon/EOS100/img1.raw", "img1")])],
        ),
    ];
    let db = PixlsDatabase::from_listing(&root);
    assert_eq!(company_names(&db), vec!["Canon", "Nikon"]);
    let companies: Vec<&Company> = db.company_iter().collect();
    assert_eq!(model_names(companies[0]), vec!["EOS100"]);
    assert_eq!(model_names(companies[1]), vec!["D90", "D3"]);
    let nikon: Vec<&Model> = companies[1].model_iter().collect();
    assert_eq!(images(nikon[0]), vec!["/a/Nikon/D90/z.nef", "/a/Nikon/D90/a.nef"]);
    assert_eq!(images(nikon[1]), Vec::<String>::new());
    let canon: Vec<&Model> = companies[0].model_iter().collect();
    assert_eq!(images(canon[0]), vec!["/a/Canon/EOS100/img1.raw"]);
}

#[test]
fn entries_of_another_kind_are_left_out() {
    let root = vec![
        file("/a/README.md", "README"),
        dir(
            "/a/Canon",
            "Canon",
            vec![
                file("/a/Canon/notes.txt", "notes"),
                entry("/a/Canon/link", "link", EntryKind::Other, vec![]),
                dir(
                    "/a/Canon/EOS100",
                    "EOS100",
                    vec![
                        file("/a/Canon/EOS100/img1.raw", "img1"),
                        dir("/a/Canon/EOS100/thumbs", "thumbs", vec![file("/a/Canon/EOS100/thumbs/t.jpg", "t")]),
                        entry("/a/Canon/EOS100/socket", "socket", EntryKind::Other, vec![]),
                        file("/a/Canon/EOS100/img2.raw", "img2"),
                    ],
                ),
            ],
        ),
        entry("/a/dangling", "dangling", EntryKind::Other, vec![]),
    ];
    let db = PixlsDatabase::from_listing(&root);
    assert_eq!(db.company_iter().count(), 1);
    let companies: Vec<&Company> = db.company_iter().collect();
    assert_eq!(companies[0].name, "Canon");
    assert_eq!(companies[0].model_iter().count(), 1);
    let models: Vec<&Model> = companies[0].model_iter().collect();
    assert_eq!(models[0].name, "EOS100");
    assert_eq!(images(models[0]), vec!["/a/Canon/EOS100/img1.raw", "/a/Canon/EOS100/img2.raw"]);
}

#[test]
fn a_file_with_a_listing_is_no_company() {
    let root = vec![entry(
        "/a/odd",
        "odd",
        EntryKind::File,
        vec![dir("/a/odd/x", "x", vec![])],
    )];
    let db = PixlsDatabase::from_listing(&root);
    assert_eq!(db.company_iter().count(), 0);
}

#[test]
fn model_and_company_from_listing() {
    let listed = dir(
        "/a/Canon",
        "Canon",
        vec![
            dir("/a/Canon/Z", "Z", vec![file("/a/Canon/Z/2.raw", "2"), file("/a/Canon/Z/1.raw", "1")]),
            dir("/a/Canon/A", "A", vec![]),
        ],
    );
    let company = Company::from_listing(&listed);
    assert_eq!(company.name, "Canon");
    assert_eq!(model_names(&company), vec!["Z", "A"]);
    let model = Model::from_listing(&listed.entries[0]);
    assert_eq!(model.name, "Z");
    assert_eq!(images(&model), vec!["/a/Canon/Z/2.raw", "/a/Canon/Z/1.raw"]);
}
